use std::collections::HashMap;
use vstd::prelude::*;

verus! {

broadcast use vstd::std_specs::hash::group_hash_axioms;

/// The digests that a list holds, as a set.
pub open spec fn digest_set(v: Seq<Vec<u8>>) -> Set<Seq<u8>> {
    Set::new(|d: Seq<u8>| exists|i: int| 0 <= i < v.len() && v[i]@ == d)
}

/// The contents of a list of digests.
pub open spec fn views(v: Seq<Vec<u8>>) -> Seq<Seq<u8>> {
    v.map_values(|d: Vec<u8>| d@)
}

/// The set of a digest list is the set of its contents.
pub proof fn lemma_views_to_set(v: Seq<Vec<u8>>)
    ensures
        views(v).to_set() == digest_set(v),
{
    assert forall|d: Seq<u8>| #[trigger] views(v).to_set().contains(d) <==> digest_set(v).contains(d) by {
        if digest_set(v).contains(d) {
            let i = choose|i: int| 0 <= i < v.len() && v[i]@ == d;
            assert(views(v)[i] == d);
        }
        if views(v).contains(d) {
            let i = choose|i: int| 0 <= i < views(v).len() && views(v)[i] == d;
            assert(v[i]@ == d);
        }
    }
    assert(views(v).to_set() =~= digest_set(v));
}

proof fn lemma_digest_set_push(v: Seq<Vec<u8>>, x: Vec<u8>)
    ensures
        digest_set(v.push(x)) == digest_set(v).insert(x@),
{
    let w = v.push(x);
    assert forall|d: Seq<u8>| digest_set(w).contains(d) <==> #[trigger] digest_set(v).insert(
        x@,
    ).contains(d) by {
        if digest_set(v).contains(d) {
            let i = choose|i: int| 0 <= i < v.len() && v[i]@ == d;
            assert(w[i]@ == d);
        }
        if d == x@ {
            assert(w[v.len() as int]@ == d);
        }
        if digest_set(w).contains(d) {
            let i = choose|i: int| 0 <= i < w.len() && w[i]@ == d;
            if i < v.len() {
                assert(v[i]@ == d);
            }
        }
    }
    assert(digest_set(w) =~= digest_set(v).insert(x@));
}

proof fn lemma_digest_set_single(x: Vec<u8>)
    ensures
        digest_set(seq![x]) == set![x@],
{
    lemma_digest_set_push(Seq::empty(), x);
    assert(seq![x] =~= Seq::<Vec<u8>>::empty().push(x));
    assert(digest_set(Seq::<Vec<u8>>::empty()) =~= Set::<Seq<u8>>::empty());
}

/// Appending `x` adds exactly `x` to what a list contains.
proof fn lemma_push_contains(v: Seq<u64>, x: u64)
    ensures
        forall|l: u64| #[trigger] v.push(x).contains(l) <==> v.contains(l) || l == x,
{
    assert forall|l: u64| #[trigger] v.push(x).contains(l) <==> v.contains(l) || l == x by {
        if v.push(x).contains(l) {
            let i = choose|i: int| 0 <= i < v.push(x).len() && v.push(x)[i] == l;
            if i < v.len() {
                assert(v[i] == l);
            }
        }
        if v.contains(l) {
            let i = choose|i: int| 0 <= i < v.len() && v[i] == l;
            assert(v.push(x)[i] == l);
        }
        if l == x {
            assert(v.push(x)[v.len() as int] == l);
        }
    }
}

/// Whether two byte strings are equal.
pub fn bytes_eq(a: &[u8], b: &[u8]) -> (r: bool)
    ensures
        r == (a@ == b@),
{
    if a.len() != b.len() {
        return false;
    }
    let mut i: usize = 0;
    while i < a.len()
        invariant
            a.len() == b.len(),
            i <= a.len(),
            forall|j: int| 0 <= j < i ==> a@[j] == b@[j],
        decreases a.len() - i,
    {
        if a[i] != b[i] {
            return false;
        }
        i = i + 1;
    }
    assert(a@ =~= b@);
    true
}

/// Whether `digest` is one of `digests`: a file with that digest duplicates
/// content that the set stands for.
pub fn dedup_from_set(digest: &[u8], digests: &Vec<Vec<u8>>) -> (r: bool)
    ensures
        r == digest_set(digests@).contains(digest@),
{
    let mut i: usize = 0;
    while i < digests.len()
        invariant
            i <= digests.len(),
            forall|j: int| 0 <= j < i ==> digests@[j]@ != digest@,
        decreases digests.len() - i,
    {
        if bytes_eq(digests[i].as_slice(), digest) {
            assert(digests@[i as int]@ == digest@);
            return true;
        }
        i = i + 1;
    }
    false
}

/// Content digests grouped by content length: each occupied length maps to
/// the non-empty set of digests of the content of that length.
pub struct SizeIndex {
    lengths: Vec<u64>,
    buckets: HashMap<u64, Vec<Vec<u8>>>,
}

impl View for SizeIndex {
    type V = Map<u64, Set<Seq<u8>>>;

    closed spec fn view(&self) -> Map<u64, Set<Seq<u8>>> {
        Map::new(|l: u64| self.buckets@.contains_key(l), |l: u64| digest_set(self.buckets@[l]@))
    }
}

impl SizeIndex {
    /// The occupied lengths are listed once each, and no bucket is empty.
    pub closed spec fn wf(&self) -> bool {
        &&& self.lengths@.no_duplicates()
        &&& forall|l: u64| #[trigger]
            self.buckets@.contains_key(l) <==> self.lengths@.contains(l)
        &&& forall|l: u64| #[trigger]
            self.buckets@.contains_key(l) ==> self.buckets@[l]@.len() > 0 && views(
                self.buckets@[l]@,
            ).no_duplicates()
    }

    pub fn new() -> (r: SizeIndex)
        ensures
            r.wf(),
            r@ == Map::<u64, Set<Seq<u8>>>::empty(),
    {
        let r = SizeIndex { lengths: Vec::new(), buckets: HashMap::new() };
        assert(r@ =~= Map::<u64, Set<Seq<u8>>>::empty());
        r
    }

    /// Adds one digest to the bucket of `len`, opening the bucket if needed.
    pub fn insert(&mut self, len: u64, digest: Vec<u8>)
        requires
            old(self).wf(),
        ensures
            final(self).wf(),
            final(self)@ == old(self)@.insert(
                len,
                if old(self)@.contains_key(len) {
                    old(self)@[len].insert(digest@)
                } else {
                    set![digest@]
                },
            ),
    {
        let ghost dv = digest@;
        match self.buckets.remove(&len) {
            Some(mut v) => {
                if !dedup_from_set(digest.as_slice(), &v) {
                    proof {
                        lemma_digest_set_push(v@, digest);
                        assert forall|j: int| 0 <= j < v@.len() implies v@[j]@ != dv by {
                            if v@[j]@ == dv {
                                assert(digest_set(v@).contains(dv));
                            }
                        }
                    }
                    v.push(digest);
                    proof {
                        assert(views(v@) =~= views(old(self).buckets@[len]@).push(dv));
                    }
                } else {
                    assert(digest_set(v@).insert(dv) =~= digest_set(v@));
                }
                self.buckets.insert(len, v);
            },
            None => {
                let mut v: Vec<Vec<u8>> = Vec::new();
                v.push(digest);
                proof {
                    lemma_digest_set_single(v@[0]);
                    assert(v@ =~= seq![v@[0]]);
                    assert(views(v@).len() == 1);
                }
                self.buckets.insert(len, v);
                self.lengths.push(len);
                proof {
                    lemma_push_contains(old(self).lengths@, len);
                }
            },
        }
        assert(self@ =~= old(self)@.insert(
            len,
            if old(self)@.contains_key(len) {
                old(self)@[len].insert(dv)
            } else {
                set![dv]
            },
        ));
    }

    /// Sets the bucket of `len` to exactly the given digests.
    pub fn set_bucket(&mut self, len: u64, digests: Vec<Vec<u8>>)
        requires
            old(self).wf(),
            digests@.len() > 0,
            views(digests@).no_duplicates(),
        ensures
            final(self).wf(),
            final(self)@ == old(self)@.insert(len, digest_set(digests@)),
    {
        let ghost dv = digests@;
        let present = self.buckets.contains_key(&len);
        self.buckets.insert(len, digests);
        if !present {
            self.lengths.push(len);
            proof {
                lemma_push_contains(old(self).lengths@, len);
            }
        }
        assert(self@ =~= old(self)@.insert(len, digest_set(dv)));
    }

    /// Whether some content of length `len` is indexed.
    pub fn has_bucket(&self, len: u64) -> (r: bool)
        requires
            self.wf(),
        ensures
            r == self@.contains_key(len),
    {
        self.buckets.contains_key(&len)
    }

    /// Whether `digest` is indexed under length `len`.
    pub fn contains(&self, len: u64, digest: &[u8]) -> (r: bool)
        requires
            self.wf(),
        ensures
            r == (self@.contains_key(len) && self@[len].contains(digest@)),
    {
        match self.buckets.get(&len) {
            Some(v) => dedup_from_set(digest, v),
            None => false,
        }
    }

    /// The occupied lengths, each once.
    pub fn lengths(&self) -> (r: &Vec<u64>)
        requires
            self.wf(),
        ensures
            r@.no_duplicates(),
            forall|l: u64| #[trigger] r@.contains(l) <==> self@.contains_key(l),
    {
        &self.lengths
    }

    /// The digests indexed under `len`.
    pub fn bucket(&self, len: u64) -> (r: Option<&Vec<Vec<u8>>>)
        requires
            self.wf(),
        ensures
            match r {
                Some(v) => {
                    &&& self@.contains_key(len)
                    &&& digest_set(v@) == self@[len]
                    &&& v@.len() > 0
                    &&& views(v@).no_duplicates()
                },
                None => !self@.contains_key(len),
            },
    {
        self.buckets.get(&len)
    }
}

/// Reference files grouped by content length. Each file is known by the
/// number it was given when added, counting from zero.
pub struct ReferenceIndex {
    count: usize,
    buckets: HashMap<u64, Vec<usize>>,
}

impl View for ReferenceIndex {
    type V = Map<u64, Seq<usize>>;

    closed spec fn view(&self) -> Map<u64, Seq<usize>> {
        Map::new(|l: u64| self.buckets@.contains_key(l), |l: u64| self.buckets@[l]@)
    }
}

impl ReferenceIndex {
    /// How many reference files have been added.
    pub closed spec fn count(&self) -> nat {
        self.count as nat
    }

    pub fn new() -> (r: ReferenceIndex)
        ensures
            r@ == Map::<u64, Seq<usize>>::empty(),
            r.count() == 0,
    {
        let r = ReferenceIndex { count: 0, buckets: HashMap::new() };
        assert(r@ =~= Map::<u64, Seq<usize>>::empty());
        r
    }

    /// Adds a reference file of length `len`; returns the number it is known by.
    pub fn add(&mut self, len: u64) -> (id: usize)
        requires
            old(self).count() < usize::MAX,
        ensures
            id == old(self).count(),
            final(self).count() == old(self).count() + 1,
            final(self)@ == old(self)@.insert(
                len,
                if old(self)@.contains_key(len) {
                    old(self)@[len].push(id)
                } else {
                    seq![id]
                },
            ),
    {
        let id = self.count;
        let mut v = match self.buckets.remove(&len) {
            Some(v) => v,
            None => Vec::new(),
        };
        let ghost before = v@;
        v.push(id);
        self.buckets.insert(len, v);
        self.count = self.count + 1;
        proof {
            if !old(self)@.contains_key(len) {
                assert(before =~= Seq::<usize>::empty());
                assert(v@ =~= seq![id]);
            }
        }
        assert(self@ =~= old(self)@.insert(
            len,
            if old(self)@.contains_key(len) {
                old(self)@[len].push(id)
            } else {
                seq![id]
            },
        ));
        id
    }

    /// The reference files of length `len`, in the order they were added.
    pub fn candidates(&self, len: u64) -> (r: Option<&Vec<usize>>)
        ensures
            match r {
                Some(v) => self@.contains_key(len) && v@ == self@[len],
                None => !self@.contains_key(len),
            },
    {
        self.buckets.get(&len)
    }
}

} // verus!
