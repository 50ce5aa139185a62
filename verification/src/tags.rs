use vstd::prelude::*;

verus! {

/// The tags of one OSM element: an ordered list of key/value pairs.
/// Iteration order is preserved, so emitted properties are stable.
pub struct Tags(pub Vec<(String, String)>);

impl View for Tags {
    type V = Seq<(Seq<char>, Seq<char>)>;

    open spec fn view(&self) -> Seq<(Seq<char>, Seq<char>)> {
        self.0@.map_values(|p: (String, String)| (p.0@, p.1@))
    }
}

/// Some pair has key `k`. A missing key is not the same as an empty value.
pub open spec fn spec_has(t: Seq<(Seq<char>, Seq<char>)>, k: Seq<char>) -> bool {
    exists|i: int| 0 <= i < t.len() && t[i].0 == k
}

/// Some pair is exactly `(k, v)`.
pub open spec fn spec_is(t: Seq<(Seq<char>, Seq<char>)>, k: Seq<char>, v: Seq<char>) -> bool {
    exists|i: int| 0 <= i < t.len() && t[i].0 == k && t[i].1 == v
}

impl Clone for Tags {
    fn clone(&self) -> (r: Tags)
        ensures
            r@ == self@,
    {
        let mut v: Vec<(String, String)> = Vec::new();
        let n = self.0.len();
        let mut i: usize = 0;
        while i < n
            invariant
                n == self.0@.len(),
                i <= n,
                v@.len() == i,
                forall|j: int|
                    0 <= j < i ==> #[trigger] v@[j].0@ == self.0@[j].0@ && v@[j].1@
                        == self.0@[j].1@,
            decreases n - i,
        {
            v.push((self.0[i].0.clone(), self.0[i].1.clone()));
            i += 1;
        }
        let r = Tags(v);
        proof {
            assert forall|j: int| 0 <= j < n implies r@[j] == self@[j] by {
                assert(r@[j] == (r.0@[j].0@, r.0@[j].1@));
                assert(self@[j] == (self.0@[j].0@, self.0@[j].1@));
            }
            assert(r@ =~= self@);
        }
        r
    }
}

impl Tags {
    pub fn new() -> (t: Tags)
        ensures
            t@ =~= Seq::<(Seq<char>, Seq<char>)>::empty(),
    {
        Tags(Vec::new())
    }

    pub fn push(&mut self, k: String, v: String)
        ensures
            final(self)@ =~= old(self)@.push((k@, v@)),
    {
        self.0.push((k, v));
    }

    pub fn len(&self) -> (n: usize)
        ensures
            n == self@.len(),
    {
        self.0.len()
    }

    pub fn key_value(&self, i: usize) -> (p: (&String, &String))
        requires
            i < self@.len(),
        ensures
            p.0@ == self@[i as int].0,
            p.1@ == self@[i as int].1,
    {
        (&self.0[i].0, &self.0[i].1)
    }

    pub fn has(&self, k: &str) -> (r: bool)
        ensures
            r == spec_has(self@, k@),
    {
        let key = k.to_owned();
        let n = self.0.len();
        let mut i: usize = 0;
        while i < n
            invariant
                key@ == k@,
                n == self@.len(),
                i <= n,
                forall|j: int| 0 <= j < i ==> self@[j].0 != k@,
            decreases n - i,
        {
            proof {
                assert(self@[i as int] == (self.0@[i as int].0@, self.0@[i as int].1@));
            }
            if self.0[i].0 == key {
                return true;
            }
            i += 1;
        }
        false
    }

    pub fn is(&self, k: &str, v: &str) -> (r: bool)
        ensures
            r == spec_is(self@, k@, v@),
    {
        let key = k.to_owned();
        let val = v.to_owned();
        let n = self.0.len();
        let mut i: usize = 0;
        while i < n
            invariant
                key@ == k@,
                val@ == v@,
                n == self@.len(),
                i <= n,
                forall|j: int| 0 <= j < i ==> !(self@[j].0 == k@ && self@[j].1 == v@),
            decreases n - i,
        {
            proof {
                assert(self@[i as int] == (self.0@[i as int].0@, self.0@[i as int].1@));
            }
            if self.0[i].0 == key && self.0[i].1 == val {
                return true;
            }
            i += 1;
        }
        false
    }

    pub fn is_any(&self, k: &str, vs: &[&str]) -> (r: bool)
        ensures
            r == exists|j: int| 0 <= j < vs@.len() && spec_is(self@, k@, vs@[j]@),
    {
        let mut j: usize = 0;
        while j < vs.len()
            invariant
                j <= vs@.len(),
                forall|m: int| 0 <= m < j ==> !spec_is(self@, k@, vs@[m]@),
            decreases vs@.len() - j,
        {
            if self.is(k, vs[j]) {
                return true;
            }
            j += 1;
        }
        false
    }

    pub fn has_any(&self, ks: &[&str]) -> (r: bool)
        ensures
            r == exists|j: int| 0 <= j < ks@.len() && spec_has(self@, ks@[j]@),
    {
        let mut j: usize = 0;
        while j < ks.len()
            invariant
                j <= ks@.len(),
                forall|m: int| 0 <= m < j ==> !spec_has(self@, ks@[m]@),
            decreases ks@.len() - j,
        {
            if self.has(ks[j]) {
                return true;
            }
            j += 1;
        }
        false
    }
}

} // verus!
