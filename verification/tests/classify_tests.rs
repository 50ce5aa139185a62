use severance_graph::classify::{classify, RoadKind};
use severance_graph::tags::Tags;

fn tags_of(pairs: &[(&str, &str)]) -> Tags {
    let mut t = Tags::new();
    for (k, v) in pairs {
        t.push(k.to_string(), v.to_string());
    }
    t
}

#[test]
fn no_highway_is_excluded() {
    assert_eq!(classify(&tags_of(&[("name", "x")]), true), None);
    assert_eq!(classify(&tags_of(&[]), false), None);
}

#[test]
fn proposed_and_area_are_excluded() {
    assert_eq!(classify(&tags_of(&[("highway", "proposed")]), true), None);
    assert_eq!(
        classify(&tags_of(&[("highway", "footway"), ("area", "yes")]), true),
        None
    );
}

#[test]
fn footway_kinds() {
    assert_eq!(
        classify(&tags_of(&[("highway", "footway")]), false),
        Some(RoadKind::Footway)
    );
    assert_eq!(
        classify(&tags_of(&[("highway", "steps")]), false),
        Some(RoadKind::Footway)
    );
    assert_eq!(
        classify(&tags_of(&[("highway", "corridor")]), false),
        Some(RoadKind::Indoors)
    );
    assert_eq!(
        classify(&tags_of(&[("highway", "path"), ("indoor", "yes")]), false),
        Some(RoadKind::Indoors)
    );
    assert_eq!(
        classify(&tags_of(&[("highway", "footway"), ("footway", "crossing")]), false),
        Some(RoadKind::Crossing)
    );
}

#[test]
fn bridge_precedes_crossing() {
    // Rule order: a bridge or tunnel wins over a crossing mark.
    assert_eq!(
        classify(
            &tags_of(&[("highway", "footway"), ("bridge", "yes"), ("footway", "crossing")]),
            false
        ),
        Some(RoadKind::BridgeOrTunnel)
    );
}

#[test]
fn crossing_rule() {
    assert_eq!(
        classify(&tags_of(&[("highway", "crossing")]), false),
        Some(RoadKind::Crossing)
    );
    assert_eq!(
        classify(&tags_of(&[("highway", "service"), ("crossing", "marked")]), false),
        Some(RoadKind::Crossing)
    );
}

#[test]
fn big_roads_are_severances_before_sidewalks() {
    // A primary road stays a severance even with sidewalk tags.
    assert_eq!(
        classify(&tags_of(&[("highway", "primary"), ("sidewalk", "both")]), false),
        Some(RoadKind::Severance)
    );
    assert_eq!(
        classify(&tags_of(&[("highway", "motorway")]), true),
        Some(RoadKind::Severance)
    );
}

#[test]
fn separate_sidewalk_is_excluded() {
    assert_eq!(
        classify(&tags_of(&[("highway", "residential"), ("sidewalk", "separate")]), true),
        None
    );
    assert_eq!(
        classify(
            &tags_of(&[("highway", "residential"), ("sidewalk:left", "separate")]),
            true
        ),
        None
    );
}

#[test]
fn pedestrian_and_sidewalks_with_traffic() {
    assert_eq!(
        classify(&tags_of(&[("highway", "pedestrian")]), false),
        Some(RoadKind::WithTraffic)
    );
    assert_eq!(
        classify(&tags_of(&[("highway", "residential"), ("sidewalk", "left")]), false),
        Some(RoadKind::WithTraffic)
    );
}

#[test]
fn foot_no_is_never_walkable_regardless_of_flag() {
    // With foot=no the street skips the import rule entirely and falls
    // through to the severance fallback, whatever the flag says.
    assert_eq!(
        classify(&tags_of(&[("highway", "residential"), ("foot", "no")]), true),
        Some(RoadKind::Severance)
    );
    assert_eq!(
        classify(&tags_of(&[("highway", "residential"), ("foot", "no")]), false),
        Some(RoadKind::Severance)
    );
}

#[test]
fn untagged_streets_follow_the_flag() {
    let t = tags_of(&[("highway", "residential")]);
    assert_eq!(classify(&t, true), Some(RoadKind::WithTraffic));
    assert_eq!(classify(&t, false), None);
}

#[test]
fn fallback_is_severance() {
    assert_eq!(
        classify(&tags_of(&[("highway", "busway")]), false),
        Some(RoadKind::Severance)
    );
}

#[test]
fn classifier_is_pure() {
    let t = tags_of(&[("highway", "footway"), ("layer", "1")]);
    let first = classify(&t, true);
    let second = classify(&t, true);
    assert_eq!(first, second);
    assert_eq!(first, Some(RoadKind::BridgeOrTunnel));
}

#[test]
fn tag_predicates() {
    let t = tags_of(&[("highway", "footway"), ("lit", "yes")]);
    assert!(t.has("highway"));
    assert!(!t.has("surface"));
    assert!(t.is("lit", "yes"));
    assert!(!t.is("lit", "no"));
    assert!(t.is_any("highway", &["cycleway", "footway"]));
    assert!(!t.is_any("highway", &["cycleway", "path"]));
    assert!(t.has_any(&["surface", "lit"]));
    assert!(!t.has_any(&["surface", "width"]));
}
