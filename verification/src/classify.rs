use vstd::prelude::*;

use crate::tags::{Tags, spec_has, spec_is};

verus! {

/// How a road participates in pedestrian mobility.
#[derive(Clone, Copy, Debug, PartialEq, Eq, Structural)]
pub enum RoadKind {
    Footway,
    Indoors,
    BridgeOrTunnel,
    WithTraffic,
    Crossing,
    Severance,
}

/// The classification rules, evaluated in order with the first match winning.
/// `None` excludes the way from the pedestrian graph entirely.
pub open spec fn classify_spec(
    t: Seq<(Seq<char>, Seq<char>)>,
    import_streets_without_sidewalk_tagging: bool,
) -> Option<RoadKind> {
    if !spec_has(t, "highway"@) || spec_is(t, "highway"@, "proposed"@) || spec_is(
        t,
        "area"@,
        "yes"@,
    ) {
        None
    } else if spec_is(t, "highway"@, "footway"@) || spec_is(t, "highway"@, "steps"@) || spec_is(
        t,
        "highway"@,
        "path"@,
    ) || spec_is(t, "highway"@, "track"@) || spec_is(t, "highway"@, "corridor"@) {
        if spec_has(t, "indoor"@) || spec_is(t, "highway"@, "corridor"@) {
            Some(RoadKind::Indoors)
        } else if spec_has(t, "layer"@) || spec_has(t, "bridge"@) || spec_has(t, "tunnel"@) {
            Some(RoadKind::BridgeOrTunnel)
        } else if spec_is(t, "footway"@, "crossing"@) {
            Some(RoadKind::Crossing)
        } else {
            Some(RoadKind::Footway)
        }
    } else if spec_is(t, "highway"@, "crossing"@) || spec_has(t, "crossing"@) {
        Some(RoadKind::Crossing)
    } else if spec_is(t, "highway"@, "motorway"@) || spec_is(t, "highway"@, "motorway_link"@)
        || spec_is(t, "highway"@, "trunk"@) || spec_is(t, "highway"@, "trunk_link"@) || spec_is(
        t,
        "highway"@,
        "primary"@,
    ) || spec_is(t, "highway"@, "primary_link"@) {
        Some(RoadKind::Severance)
    } else if spec_is(t, "sidewalk"@, "separate"@) || spec_is(t, "sidewalk:left"@, "separate"@)
        || spec_is(t, "sidewalk:right"@, "separate"@) || spec_is(t, "sidewalk:both"@, "separate"@) {
        None
    } else if spec_is(t, "highway"@, "pedestrian"@) || spec_is(t, "sidewalk"@, "both"@) || spec_is(
        t,
        "sidewalk"@,
        "right"@,
    ) || spec_is(t, "sidewalk"@, "left"@) {
        Some(RoadKind::WithTraffic)
    } else if (spec_is(t, "highway"@, "secondary"@) || spec_is(t, "highway"@, "secondary_link"@)
        || spec_is(t, "highway"@, "tertiary"@) || spec_is(t, "highway"@, "tertiary_link"@)
        || spec_is(t, "highway"@, "residential"@) || spec_is(t, "highway"@, "unclassified"@)
        || spec_is(t, "highway"@, "service"@) || spec_is(t, "highway"@, "living_street"@)
        || spec_is(t, "highway"@, "cycleway"@)) && !spec_is(t, "foot"@, "no"@) {
        if import_streets_without_sidewalk_tagging {
            Some(RoadKind::WithTraffic)
        } else {
            None
        }
    } else {
        Some(RoadKind::Severance)
    }
}

/// Classifies an OSM way by its tags. `None` means the way is excluded
/// from the walking graph. A pure function of the tags and the flag.
pub fn classify(tags: &Tags, import_streets_without_sidewalk_tagging: bool) -> (r: Option<
    RoadKind,
>)
    ensures
        r == classify_spec(tags@, import_streets_without_sidewalk_tagging),
{
    if !tags.has("highway") || tags.is("highway", "proposed") || tags.is("area", "yes") {
        return None;
    }
    if tags.is("highway", "footway") || tags.is("highway", "steps") || tags.is("highway", "path")
        || tags.is("highway", "track") || tags.is("highway", "corridor") {
        if tags.has("indoor") || tags.is("highway", "corridor") {
            return Some(RoadKind::Indoors);
        }
        if tags.has("layer") || tags.has("bridge") || tags.has("tunnel") {
            return Some(RoadKind::BridgeOrTunnel);
        }
        if tags.is("footway", "crossing") {
            return Some(RoadKind::Crossing);
        }
        return Some(RoadKind::Footway);
    }
    if tags.is("highway", "crossing") || tags.has("crossing") {
        return Some(RoadKind::Crossing);
    }
    if tags.is("highway", "motorway") || tags.is("highway", "motorway_link") || tags.is(
        "highway",
        "trunk",
    ) || tags.is("highway", "trunk_link") || tags.is("highway", "primary") || tags.is(
        "highway",
        "primary_link",
    ) {
        return Some(RoadKind::Severance);
    }
    if tags.is("sidewalk", "separate") || tags.is("sidewalk:left", "separate") || tags.is(
        "sidewalk:right",
        "separate",
    ) || tags.is("sidewalk:both", "separate") {
        return None;
    }
    if tags.is("highway", "pedestrian") || tags.is("sidewalk", "both") || tags.is(
        "sidewalk",
        "right",
    ) || tags.is("sidewalk", "left") {
        return Some(RoadKind::WithTraffic);
    }
    if (tags.is("highway", "secondary") || tags.is("highway", "secondary_link") || tags.is(
        "highway",
        "tertiary",
    ) || tags.is("highway", "tertiary_link") || tags.is("highway", "residential") || tags.is(
        "highway",
        "unclassified",
    ) || tags.is("highway", "service") || tags.is("highway", "living_street") || tags.is(
        "highway",
        "cycleway",
    )) && !tags.is("foot", "no") {
        if import_streets_without_sidewalk_tagging {
            return Some(RoadKind::WithTraffic);
        } else {
            return None;
        }
    }
    Some(RoadKind::Severance)
}

/// The name of a kind, as emitted in GeoJSON properties.
pub open spec fn kind_name_spec(k: RoadKind) -> Seq<char> {
    match k {
        RoadKind::Footway => "Footway"@,
        RoadKind::Indoors => "Indoors"@,
        RoadKind::BridgeOrTunnel => "BridgeOrTunnel"@,
        RoadKind::WithTraffic => "WithTraffic"@,
        RoadKind::Crossing => "Crossing"@,
        RoadKind::Severance => "Severance"@,
    }
}

impl RoadKind {
    /// Renders the kind's name for property emission.
    pub fn name(&self) -> (r: String)
        ensures
            r@ == kind_name_spec(*self),
    {
        match self {
            RoadKind::Footway => "Footway".to_owned(),
            RoadKind::Indoors => "Indoors".to_owned(),
            RoadKind::BridgeOrTunnel => "BridgeOrTunnel".to_owned(),
            RoadKind::WithTraffic => "WithTraffic".to_owned(),
            RoadKind::Crossing => "Crossing".to_owned(),
            RoadKind::Severance => "Severance".to_owned(),
        }
    }
}

} // verus!
