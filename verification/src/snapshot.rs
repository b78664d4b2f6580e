use vstd::prelude::*;
use crate::bytes::copy_bytes;

verus! {

/// An opaque byte string that addresses one recorded version of a value.
pub struct ContentHash {
    bytes: Vec<u8>,
}

impl View for ContentHash {
    type V = Seq<u8>;

    closed spec fn view(&self) -> Seq<u8> {
        self.bytes@
    }
}

impl ContentHash {
    /// Wraps raw bytes as a content hash.
    pub fn new(bytes: Vec<u8>) -> (r: ContentHash)
        ensures
            r@ == bytes@,
    {
        ContentHash { bytes }
    }

    /// The hash's bytes.
    pub fn as_bytes(&self) -> (r: &Vec<u8>)
        ensures
            r@ == self@,
    {
        &self.bytes
    }

    /// A fresh copy of the hash, equal to this one.
    pub fn duplicate(&self) -> (r: ContentHash)
        ensures
            r@ == self@,
    {
        ContentHash { bytes: copy_bytes(&self.bytes) }
    }
}

/// One recorded snapshot: at `height` the value changed to the version
/// addressed by `hash`.
pub struct SnapshotEntry {
    pub height: u64,
    pub hash: ContentHash,
}

/// The per-(scope, account, sub-key) mapping from height to content hash.
/// Entries are appended in recording order and heights strictly increase;
/// recorded entries are never rewritten or deleted.
pub struct SnapshotIndex {
    entries: Vec<SnapshotEntry>,
}

impl View for SnapshotIndex {
    type V = Seq<(u64, Seq<u8>)>;

    closed spec fn view(&self) -> Seq<(u64, Seq<u8>)> {
        self.entries@.map(|i: int, e: SnapshotEntry| (e.height, e.hash@))
    }
}

/// Heights strictly increase along the sequence.
pub open spec fn heights_sorted(s: Seq<(u64, Seq<u8>)>) -> bool {
    forall|i: int, j: int| 0 <= i < j < s.len() ==> s[i].0 < s[j].0
}

/// The content hash of the most recent snapshot recorded at or before `h`:
/// the last entry whose height does not exceed `h`.
pub open spec fn spec_resolve(s: Seq<(u64, Seq<u8>)>, h: u64) -> Option<Seq<u8>>
    decreases s.len(),
{
    if s.len() == 0 {
        None
    } else if s.last().0 <= h {
        Some(s.last().1)
    } else {
        spec_resolve(s.drop_last(), h)
    }
}

/// What a correct point-in-time resolution must return: `None` exactly when
/// every recorded height exceeds `h`, and otherwise the hash of an entry at
/// or below `h` that no other entry at or below `h` outranks.
pub open spec fn resolve_post(s: Seq<(u64, Seq<u8>)>, h: u64, r: Option<Seq<u8>>) -> bool {
    match r {
        None => forall|i: int| 0 <= i < s.len() ==> #[trigger] s[i].0 > h,
        Some(v) => exists|i: int|
            {
                &&& 0 <= i < s.len()
                &&& #[trigger] s[i].0 <= h
                &&& s[i].1 == v
                &&& forall|j: int| 0 <= j < s.len() && #[trigger] s[j].0 <= h ==> s[j].0 <= s[i].0
            },
    }
}

impl SnapshotIndex {
    /// The index is well formed: heights strictly increase.
    pub open spec fn wf(&self) -> bool {
        heights_sorted(self@)
    }

    /// An empty index: nothing recorded yet.
    pub fn new() -> (r: SnapshotIndex)
        ensures
            r@ == Seq::<(u64, Seq<u8>)>::empty(),
            r.wf(),
    {
        let r = SnapshotIndex { entries: Vec::new() };
        assert(r@ =~= Seq::<(u64, Seq<u8>)>::empty());
        r
    }

    /// Appends a snapshot. Heights are recorded in strictly increasing
    /// order, so the new height must exceed every recorded one.
    pub fn record(&mut self, height: u64, hash: ContentHash)
        requires
            old(self).wf(),
            old(self)@.len() > 0 ==> old(self)@.last().0 < height,
        ensures
            final(self)@ == old(self)@.push((height, hash@)),
            final(self).wf(),
    {
        let ghost prev = self@;
        self.entries.push(SnapshotEntry { height, hash });
        assert(self@ =~= prev.push((height, hash@)));
        assert forall|i: int, j: int| 0 <= i < j < self@.len() implies self@[i].0 < self@[j].0 by {
            if j < prev.len() {
            } else {
                assert(self@[j].0 == height);
                if i < prev.len() as int - 1 {
                    assert(prev[i].0 < prev[prev.len() - 1].0);
                }
            }
        }
    }

    /// The number of recorded snapshots.
    pub fn len(&self) -> (r: usize)
        ensures
            r == self@.len(),
    {
        self.entries.len()
    }

    /// Finds the most recent snapshot at or before `height`: a reverse scan
    /// bounded above by `height`, limited to one result. Returns `None` when
    /// the index is empty or every entry exceeds `height`.
    pub fn resolve(&self, height: u64) -> (r: Option<&ContentHash>)
        ensures
            r matches Some(c) ==> spec_resolve(self@, height) == Some(c@),
            r is None ==> spec_resolve(self@, height) is None,
    {
        let mut i: usize = self.entries.len();
        assert(self@.take(i as int) =~= self@);
        while i > 0
            invariant
                i <= self.entries.len(),
                spec_resolve(self@, height) == spec_resolve(self@.take(i as int), height),
            decreases i,
        {
            let ghost pre = self@.take(i as int);
            assert(pre.last() == self@[i - 1]);
            assert(self@[i - 1] == (self.entries@[i - 1].height, self.entries@[i - 1].hash@));
            if self.entries[i - 1].height <= height {
                return Some(&self.entries[i - 1].hash);
            }
            assert(pre.drop_last() =~= self@.take(i - 1));
            i = i - 1;
        }
        assert(self@.take(0) =~= Seq::<(u64, Seq<u8>)>::empty());
        None
    }
}

/// Point-in-time consistency: on a well-formed index, the resolved hash is
/// the one recorded at the greatest height at or below the requested height,
/// and resolution reports nothing exactly when every recorded height lies
/// above the requested one.
pub proof fn lemma_resolve_is_greatest(s: Seq<(u64, Seq<u8>)>, h: u64)
    requires
        heights_sorted(s),
    ensures
        resolve_post(s, h, spec_resolve(s, h)),
    decreases s.len(),
{
    if s.len() == 0 {
    } else if s.last().0 <= h {
        let i = s.len() - 1;
        assert forall|j: int| 0 <= j < s.len() && #[trigger] s[j].0 <= h implies s[j].0
            <= s[i].0 by {
            if j < i {
                assert(s[j].0 < s[i].0);
            }
        }
        assert(0 <= i < s.len() && s[i].0 <= h && s[i].1 == spec_resolve(s, h).unwrap() && (
        forall|j: int| 0 <= j < s.len() && #[trigger] s[j].0 <= h ==> s[j].0 <= s[i].0));
    } else {
        let t = s.drop_last();
        assert(heights_sorted(t)) by {
            assert(forall|i: int, j: int|
                0 <= i < j < t.len() ==> t[i] == s[i] && t[j] == s[j]);
        }
        lemma_resolve_is_greatest(t, h);
        match spec_resolve(t, h) {
            None => {
                assert forall|i: int| 0 <= i < s.len() implies #[trigger] s[i].0 > h by {
                    if i < t.len() {
                        assert(t[i].0 > h);
                    }
                }
            },
            Some(v) => {
                let i = choose|i: int|
                    {
                        &&& 0 <= i < t.len()
                        &&& #[trigger] t[i].0 <= h
                        &&& t[i].1 == v
                        &&& forall|j: int|
                            0 <= j < t.len() && #[trigger] t[j].0 <= h ==> t[j].0 <= t[i].0
                    };
                assert(s[i] == t[i]);
                assert forall|j: int| 0 <= j < s.len() && #[trigger] s[j].0 <= h implies s[j].0
                    <= s[i].0 by {
                    if j < t.len() {
                        assert(t[j] == s[j]);
                    }
                }
            },
        }
    }
}

/// Recording a newer snapshot never changes what an earlier point in time
/// resolves to: a read at a fixed height is stable as the chain grows.
pub proof fn lemma_resolve_stable_under_append(
    s: Seq<(u64, Seq<u8>)>,
    height: u64,
    hash: Seq<u8>,
    h: u64,
)
    requires
        h < height,
    ensures
        spec_resolve(s.push((height, hash)), h) == spec_resolve(s, h),
{
    let u = s.push((height, hash));
    assert(u.last().0 == height);
    assert(u.drop_last() =~= s);
}

/// Idempotence of resolution: any two results that satisfy the resolver's
/// characterisation on a well-formed index are equal, so repeated calls with
/// identical inputs return identical outputs.
pub proof fn lemma_resolve_deterministic(
    s: Seq<(u64, Seq<u8>)>,
    h: u64,
    r1: Option<Seq<u8>>,
    r2: Option<Seq<u8>>,
)
    requires
        heights_sorted(s),
        resolve_post(s, h, r1),
        resolve_post(s, h, r2),
    ensures
        r1 == r2,
{
    match (r1, r2) {
        (None, None) => {},
        (None, Some(v)) => {
            let i = choose|i: int| 0 <= i < s.len() && #[trigger] s[i].0 <= h && s[i].1 == v && (
            forall|j: int| 0 <= j < s.len() && #[trigger] s[j].0 <= h ==> s[j].0 <= s[i].0);
            assert(s[i].0 > h);
        },
        (Some(v), None) => {
            let i = choose|i: int| 0 <= i < s.len() && #[trigger] s[i].0 <= h && s[i].1 == v && (
            forall|j: int| 0 <= j < s.len() && #[trigger] s[j].0 <= h ==> s[j].0 <= s[i].0);
            assert(s[i].0 > h);
        },
        (Some(v1), Some(v2)) => {
            let i1 = choose|i: int| 0 <= i < s.len() && #[trigger] s[i].0 <= h && s[i].1 == v1 && (
            forall|j: int| 0 <= j < s.len() && #[trigger] s[j].0 <= h ==> s[j].0 <= s[i].0);
            let i2 = choose|i: int| 0 <= i < s.len() && #[trigger] s[i].0 <= h && s[i].1 == v2 && (
            forall|j: int| 0 <= j < s.len() && #[trigger] s[j].0 <= h ==> s[j].0 <= s[i].0);
            assert(s[i1].0 <= s[i2].0 && s[i2].0 <= s[i1].0);
            if i1 != i2 {
                assert(i1 < i2 ==> s[i1].0 < s[i2].0);
                assert(i2 < i1 ==> s[i2].0 < s[i1].0);
            }
        },
    }
}

} // verus!
