//! Hash records and the set of them that the archive persists.
use vstd::prelude::*;

verus! {

/// A hash record as a value: path and identity.
pub type HashRecordView = (Seq<char>, i64);

/// A hash record set as a value: path to record.
pub type HashRecordMap = Map<Seq<char>, HashRecordView>;

/// One file's workspace-relative path and its content identity.
#[derive(Debug, PartialEq, Eq)]
pub struct BuildscaleFileHashed(pub String, pub i64);

impl View for BuildscaleFileHashed {
    type V = (Seq<char>, i64);

    open spec fn view(&self) -> (Seq<char>, i64) {
        (self.0@, self.1)
    }
}

impl BuildscaleFileHashed {
    pub fn new(path: String, identity: i64) -> (r: Self)
        ensures
            r@ == (path@, identity),
    {
        BuildscaleFileHashed(path, identity)
    }

    /// A copy of this record.
    pub fn duplicate(&self) -> (r: Self)
        ensures
            r@ == self@,
    {
        BuildscaleFileHashed(self.0.clone(), self.1)
    }
}

/// The hash record set: path to record, kept in a hashbrown map.
#[verifier::external_body]
#[derive(Debug, PartialEq, Eq)]
pub struct BuildscaleFileHashes {
    map: hashbrown::HashMap<String, BuildscaleFileHashed>,
}

/// What a hash record set's map holds, by the view of key and record.
pub uninterp spec fn hashes_contents(h: BuildscaleFileHashes) -> HashRecordMap;

impl View for BuildscaleFileHashes {
    type V = HashRecordMap;

    open spec fn view(&self) -> HashRecordMap {
        hashes_contents(*self)
    }
}

/// Every key is the path of the record it maps to, and the map is finite.
pub open spec fn records_keyed_by_path(m: HashRecordMap) -> bool {
    &&& m.dom().finite()
    &&& forall|k: Seq<char>| #[trigger] m.dom().contains(k) ==> m[k].0 == k
}

impl BuildscaleFileHashes {
    pub open spec fn wf(&self) -> bool {
        records_keyed_by_path(self@)
    }

    /// Relies on hashbrown::HashMap::new: the map starts empty.
    #[verifier::external_body]
    fn empty_map() -> (r: Self)
        ensures
            hashes_contents(r) == HashRecordMap::empty(),
    {
        BuildscaleFileHashes { map: hashbrown::HashMap::new() }
    }

    /// Relies on hashbrown::HashMap::insert: the key now maps to the value,
    /// and the value it mapped to before, if any, is handed back.
    #[verifier::external_body]
    fn map_insert(&mut self, k: String, v: BuildscaleFileHashed) -> (r: Option<BuildscaleFileHashed>)
        ensures
            hashes_contents(*final(self)) == hashes_contents(*old(self)).insert(k@, v@),
            match r {
                Some(p) => hashes_contents(*old(self)).contains_key(k@) && p@ == hashes_contents(*old(self))[k@],
                None => !hashes_contents(*old(self)).contains_key(k@),
            },
    {
        self.map.insert(k, v)
    }

    /// Relies on hashbrown::HashMap::get: the value under the key, if any.
    #[verifier::external_body]
    fn map_get(&self, k: &str) -> (r: Option<&BuildscaleFileHashed>)
        ensures
            match r {
                Some(v) => self@.contains_key(k@) && v@ == self@[k@],
                None => !self@.contains_key(k@),
            },
    {
        self.map.get(k)
    }

    /// Relies on hashbrown::HashMap::len: the number of keys.
    #[verifier::external_body]
    fn map_len(&self) -> (r: usize)
        ensures
            self@.dom().finite() ==> r == self@.dom().len(),
    {
        self.map.len()
    }

    /// Relies on hashbrown::HashMap::iter: each entry is visited once.
    #[verifier::external_body]
    fn map_entries(&self) -> (r: Vec<(&String, &BuildscaleFileHashed)>)
        ensures
            forall|i: int| 0 <= i < r@.len() ==> #[trigger] self@.contains_key(r@[i].0@)
                && self@[r@[i].0@] == r@[i].1@,
            forall|i: int, j: int| 0 <= i < j < r@.len() ==> r@[i].0@ != r@[j].0@,
            forall|k: Seq<char>| #[trigger] self@.contains_key(k) ==> exists|i: int|
                0 <= i < r@.len() && r@[i].0@ == k,
    {
        self.map.iter().collect()
    }

    /// An empty set.
    pub fn new() -> (r: Self)
        ensures
            r.wf(),
            r@ == HashRecordMap::empty(),
    {
        Self::empty_map()
    }

    /// Stores `record` under its path, replacing the record stored there
    /// before, which is handed back.
    pub fn insert(&mut self, record: BuildscaleFileHashed) -> (r: Option<BuildscaleFileHashed>)
        requires
            old(self).wf(),
        ensures
            final(self).wf(),
            final(self)@ == old(self)@.insert(record@.0, record@),
            match r {
                Some(p) => old(self)@.contains_key(record@.0) && p@ == old(self)@[record@.0],
                None => !old(self)@.contains_key(record@.0),
            },
    {
        let key = record.0.clone();
        self.map_insert(key, record)
    }

    /// The record stored under `path`, if any.
    pub fn get(&self, path: &str) -> (r: Option<&BuildscaleFileHashed>)
        ensures
            match r {
                Some(v) => self@.contains_key(path@) && v@ == self@[path@],
                None => !self@.contains_key(path@),
            },
    {
        self.map_get(path)
    }

    /// The number of records.
    pub fn len(&self) -> (r: usize)
        requires
            self.wf(),
        ensures
            r == self@.dom().len(),
    {
        self.map_len()
    }

    /// The records, each once, in no particular order.
    pub fn records(&self) -> (r: Vec<BuildscaleFileHashed>)
        requires
            self.wf(),
        ensures
            forall|i: int| 0 <= i < r@.len() ==> #[trigger] self@.contains_key(r@[i]@.0)
                && self@[r@[i]@.0] == r@[i]@,
            forall|i: int, j: int| 0 <= i < j < r@.len() ==> r@[i]@.0 != r@[j]@.0,
            forall|k: Seq<char>| #[trigger] self@.contains_key(k) ==> exists|i: int|
                0 <= i < r@.len() && r@[i]@.0 == k,
    {
        let entries = self.map_entries();
        let mut out: Vec<BuildscaleFileHashed> = Vec::new();
        let mut i: usize = 0;
        while i < entries.len()
            invariant
                i <= entries@.len(),
                out@.len() == i,
                forall|j: int| 0 <= j < i ==> #[trigger] out@[j]@ == entries@[j].1@,
            decreases entries@.len() - i,
        {
            out.push(entries[i].1.duplicate());
            i = i + 1;
        }
        assert forall|i: int| 0 <= i < out@.len() implies out@[i]@.0 == entries@[i].0@ by {
            assert(self@.contains_key(entries@[i].0@));
        }
        assert forall|k: Seq<char>| #[trigger] self@.contains_key(k) implies exists|i: int|
            0 <= i < out@.len() && out@[i]@.0 == k by {
            let i = choose|i: int| 0 <= i < entries@.len() && entries@[i].0@ == k;
            assert(out@[i]@ == entries@[i].1@);
        }
        out
    }

    /// A set built from `records` in order; a later record replaces an
    /// earlier one with the same path.
    pub fn from_records(records: Vec<BuildscaleFileHashed>) -> (r: Self)
        ensures
            r.wf(),
            r@ == map_of_records(records@.map_values(|x: BuildscaleFileHashed| x@)),
    {
        let mut h = Self::new();
        let ghost all = records@.map_values(|x: BuildscaleFileHashed| x@);
        let mut i: usize = 0;
        while i < records.len()
            invariant
                i <= records@.len(),
                all == records@.map_values(|x: BuildscaleFileHashed| x@),
                h.wf(),
                h@ == map_of_records(all.subrange(0, i as int)),
            decreases records@.len() - i,
        {
            h.insert(records[i].duplicate());
            proof {
                assert(all.subrange(0, i + 1).drop_last() =~= all.subrange(0, i as int));
            }
            i = i + 1;
        }
        assert(all.subrange(0, records@.len() as int) =~= all);
        h
    }
}

/// The map that inserting `s` in order gives.
pub open spec fn map_of_records(s: Seq<(Seq<char>, i64)>) -> HashRecordMap
    decreases s.len(),
{
    if s.len() == 0 {
        HashRecordMap::empty()
    } else {
        map_of_records(s.drop_last()).insert(s.last().0, s.last())
    }
}

/// The keys of `map_of_records(s)` are the paths of `s`; each record is
/// stored under its path, and with distinct paths each record is kept.
pub proof fn lemma_map_of_records(s: Seq<(Seq<char>, i64)>)
    ensures
        records_keyed_by_path(map_of_records(s)),
        forall|k: Seq<char>| #[trigger] map_of_records(s).contains_key(k) <==> exists|i: int|
            0 <= i < s.len() && s[i].0 == k,
        (forall|i: int, j: int| 0 <= i < j < s.len() ==> s[i].0 != s[j].0) ==> forall|i: int|
            0 <= i < s.len() ==> map_of_records(s)[#[trigger] s[i].0] == s[i],
    decreases s.len(),
{
    if s.len() > 0 {
        let p = s.drop_last();
        lemma_map_of_records(p);
        assert forall|k: Seq<char>| #[trigger] map_of_records(s).contains_key(k) implies exists|i: int|
            0 <= i < s.len() && s[i].0 == k by {
            if k != s.last().0 {
                let i = choose|i: int| 0 <= i < p.len() && p[i].0 == k;
                assert(s[i] == p[i]);
            }
        }
        assert forall|k: Seq<char>| (exists|i: int| 0 <= i < s.len() && s[i].0 == k) implies #[trigger] map_of_records(s).contains_key(k) by {
            let i = choose|i: int| 0 <= i < s.len() && s[i].0 == k;
            if i < p.len() {
                assert(p[i] == s[i]);
            }
        }
        if forall|i: int, j: int| 0 <= i < j < s.len() ==> s[i].0 != s[j].0 {
            assert forall|i: int| 0 <= i < s.len() implies map_of_records(s)[#[trigger] s[i].0] == s[i] by {
                if i < p.len() {
                    assert(p[i] == s[i]);
                    assert(s[i].0 != s[s.len() - 1].0);
                }
            }
        }
    }
}

} // verus!
