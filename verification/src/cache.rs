use vstd::prelude::*;
use crate::bytes::{bytes_eq, copy_bytes};
use crate::ids::AccountId;
use crate::keys::{
    build_field_set_key, build_snapshot_key, build_value_key, spec_field_set_key,
    spec_snapshot_key, spec_value_key, Scope,
};
use crate::snapshot::{lemma_resolve_is_greatest, resolve_post, spec_resolve, ContentHash, SnapshotIndex};

verus! {

/// The view of an optional borrowed sub-key.
pub open spec fn opt_view(o: Option<&Vec<u8>>) -> Option<Seq<u8>> {
    match o {
        None => None,
        Some(s) => Some(s@),
    }
}

/// The first entry of an association list whose key equals `k`.
pub open spec fn spec_find<T>(s: Seq<(Vec<u8>, T)>, k: Seq<u8>) -> Option<T>
    decreases s.len(),
{
    if s.len() == 0 {
        None
    } else if s[0].0@ == k {
        Some(s[0].1)
    } else {
        spec_find(s.drop_first(), k)
    }
}

/// No two entries share a key.
pub open spec fn keys_unique<T>(s: Seq<(Vec<u8>, T)>) -> bool {
    forall|i: int, j: int| 0 <= i < j < s.len() ==> (#[trigger] s[i]).0@ != (#[trigger] s[j]).0@
}

pub proof fn lemma_spec_find_at<T>(s: Seq<(Vec<u8>, T)>, k: Seq<u8>, i: int)
    requires
        0 <= i < s.len(),
        s[i].0@ == k,
        forall|j: int| 0 <= j < i ==> (#[trigger] s[j]).0@ != k,
    ensures
        spec_find(s, k) == Some(s[i].1),
    decreases i,
{
    if i > 0 {
        let t = s.drop_first();
        assert(forall|j: int| 0 <= j < i - 1 ==> (#[trigger] t[j]).0@ == s[j + 1].0@);
        lemma_spec_find_at(t, k, i - 1);
    }
}

pub proof fn lemma_spec_find_none<T>(s: Seq<(Vec<u8>, T)>, k: Seq<u8>)
    requires
        forall|j: int| 0 <= j < s.len() ==> (#[trigger] s[j]).0@ != k,
    ensures
        spec_find(s, k) is None,
    decreases s.len(),
{
    if s.len() > 0 {
        let t = s.drop_first();
        assert(forall|j: int| 0 <= j < t.len() ==> (#[trigger] t[j]).0@ == s[j + 1].0@);
        lemma_spec_find_none(t, k);
    }
}

/// Updating the entry at `i` without changing its key changes only what is
/// found under that key.
pub proof fn lemma_spec_find_update<T>(s: Seq<(Vec<u8>, T)>, i: int, x: (Vec<u8>, T), k: Seq<u8>)
    requires
        0 <= i < s.len(),
        keys_unique(s),
        x.0@ == s[i].0@,
    ensures
        spec_find(s.update(i, x), k) == if k == x.0@ {
            Some(x.1)
        } else {
            spec_find(s, k)
        },
    decreases i,
{
    let u = s.update(i, x);
    if i == 0 {
        if k == x.0@ {
        } else {
            assert(u.drop_first() =~= s.drop_first());
        }
    } else {
        let t = s.drop_first();
        assert(keys_unique(t)) by {
            assert(forall|a: int, b: int|
                0 <= a < b < t.len() ==> t[a] == s[a + 1] && t[b] == s[b + 1]);
        }
        lemma_spec_find_update(t, i - 1, x, k);
        assert(u.drop_first() =~= t.update(i - 1, x));
        if k == x.0@ {
            assert(s[0].0@ != s[i].0@);
        }
    }
}

/// Appending an entry under a fresh key changes only what is found under
/// that key.
pub proof fn lemma_spec_find_push<T>(s: Seq<(Vec<u8>, T)>, x: (Vec<u8>, T), k: Seq<u8>)
    requires
        forall|j: int| 0 <= j < s.len() ==> (#[trigger] s[j]).0@ != x.0@,
    ensures
        spec_find(s.push(x), k) == if k == x.0@ {
            Some(x.1)
        } else {
            spec_find(s, k)
        },
    decreases s.len(),
{
    let u = s.push(x);
    if s.len() == 0 {
        if k != x.0@ {
            assert(u.drop_first() =~= Seq::<(Vec<u8>, T)>::empty());
            lemma_spec_find_none(u.drop_first(), k);
        }
    } else {
        let t = s.drop_first();
        assert(forall|j: int| 0 <= j < t.len() ==> (#[trigger] t[j]).0@ == s[j + 1].0@);
        lemma_spec_find_push(t, x, k);
        assert(u.drop_first() =~= t.push(x));
    }
}

pub proof fn lemma_spec_find_none_forall<T>(s: Seq<(Vec<u8>, T)>, k: Seq<u8>)
    requires
        spec_find(s, k) is None,
    ensures
        forall|j: int| 0 <= j < s.len() ==> (#[trigger] s[j]).0@ != k,
    decreases s.len(),
{
    if s.len() > 0 {
        let t = s.drop_first();
        lemma_spec_find_none_forall(t, k);
        assert(forall|j: int| 0 <= j < t.len() ==> (#[trigger] t[j]).0@ == s[j + 1].0@);
        assert forall|j: int| 0 <= j < s.len() implies (#[trigger] s[j]).0@ != k by {
            if j > 0 {
                assert(t[j - 1].0@ != k);
            }
        }
    }
}

/// A found entry is one of the list's entries.
pub proof fn lemma_spec_find_member<T>(s: Seq<(Vec<u8>, T)>, k: Seq<u8>)
    requires
        spec_find(s, k) is Some,
    ensures
        exists|i: int|
            0 <= i < s.len() && (#[trigger] s[i]).0@ == k && s[i].1 == spec_find(s, k).unwrap(),
    decreases s.len(),
{
    if s.len() > 0 {
        if s[0].0@ == k {
        } else {
            let t = s.drop_first();
            lemma_spec_find_member(t, k);
            let i = choose|i: int|
                0 <= i < t.len() && (#[trigger] t[i]).0@ == k && t[i].1 == spec_find(t, k).unwrap();
            assert(s[i + 1] == t[i]);
        }
    }
}

/// True when some element of `l` equals `x`.
fn list_has(l: &Vec<Vec<u8>>, x: &Vec<u8>) -> (r: bool)
    ensures
        r <==> list_contains(l@, x@),
{
    let mut i: usize = 0;
    while i < l.len()
        invariant
            i <= l@.len(),
            forall|j: int| 0 <= j < i ==> (#[trigger] l@[j])@ != x@,
        decreases l@.len() - i,
    {
        if bytes_eq(&l[i], x) {
            assert(l@[i as int]@ == x@);
            return true;
        }
        i = i + 1;
    }
    assert(!list_contains(l@, x@));
    false
}

/// Some list element equals `x`.
pub open spec fn list_contains(l: Seq<Vec<u8>>, x: Seq<u8>) -> bool {
    exists|i: int| 0 <= i < l.len() && (#[trigger] l[i])@ == x
}

/// An in-memory model of the external versioned key-value cache: snapshot
/// indices, write-once value records, and per-account field sets. The core
/// only reads it at query time; `record` is the ingestion step that an
/// external pipeline performs as blocks are processed.
pub struct StateCache {
    indices: Vec<(Vec<u8>, SnapshotIndex)>,
    records: Vec<(Vec<u8>, Vec<u8>)>,
    fields: Vec<(Vec<u8>, Vec<Vec<u8>>)>,
}

impl StateCache {
    /// The snapshot index recorded under a snapshot key, as a view.
    pub closed spec fn snapshots(&self, k: Seq<u8>) -> Option<Seq<(u64, Seq<u8>)>> {
        match spec_find(self.indices@, k) {
            None => None,
            Some(ix) => Some(ix@),
        }
    }

    /// The payload recorded under a value key, as a view.
    pub closed spec fn record_at(&self, k: Seq<u8>) -> Option<Seq<u8>> {
        match spec_find(self.records@, k) {
            None => None,
            Some(v) => Some(v@),
        }
    }

    /// The sub-keys recorded under a field-set key.
    pub closed spec fn fields_at(&self, k: Seq<u8>) -> Option<Seq<Vec<u8>>> {
        match spec_find(self.fields@, k) {
            None => None,
            Some(l) => Some(l@),
        }
    }

    /// Well-formedness: association keys are unique, every snapshot index
    /// has strictly increasing heights, and no field set repeats a sub-key.
    pub closed spec fn wf(&self) -> bool {
        &&& keys_unique(self.indices@)
        &&& keys_unique(self.records@)
        &&& keys_unique(self.fields@)
        &&& forall|i: int| 0 <= i < self.indices@.len() ==> (#[trigger] self.indices@[i]).1.wf()
        &&& forall|i: int, a: int, b: int|
            0 <= i < self.fields@.len() && 0 <= a < b < self.fields@[i].1@.len() ==> (
            #[trigger] self.fields@[i].1@[a])@ != (#[trigger] self.fields@[i].1@[b])@
    }

    /// The resolved content hash for `(scope, account, sub_key)` at `h`.
    pub open spec fn spec_resolve_at(
        &self,
        scope: Scope,
        account: Seq<u8>,
        sub_key: Option<Seq<u8>>,
        h: u64,
    ) -> Option<Seq<u8>> {
        match self.snapshots(spec_snapshot_key(scope, account, sub_key)) {
            None => None,
            Some(s) => spec_resolve(s, h),
        }
    }

    /// The payload stored for a resolved content hash; empty when absent.
    pub open spec fn spec_fetch(
        &self,
        scope: Scope,
        account: Seq<u8>,
        hash: Seq<u8>,
        sub_key: Option<Seq<u8>>,
    ) -> Seq<u8> {
        match self.record_at(spec_value_key(scope, account, hash, sub_key)) {
            None => Seq::empty(),
            Some(v) => v,
        }
    }

    /// The payload as of height `h`: resolve, then fetch; empty when
    /// resolution fails.
    pub open spec fn spec_fetch_versioned(
        &self,
        scope: Scope,
        account: Seq<u8>,
        sub_key: Option<Seq<u8>>,
        h: u64,
    ) -> Seq<u8> {
        match self.spec_resolve_at(scope, account, sub_key, h) {
            None => Seq::empty(),
            Some(hash) => self.spec_fetch(scope, account, hash, sub_key),
        }
    }

    /// An empty cache.
    pub fn new() -> (r: StateCache)
        ensures
            r.wf(),
            forall|k: Seq<u8>| r.snapshots(k) is None,
            forall|k: Seq<u8>| r.record_at(k) is None,
            forall|k: Seq<u8>| r.fields_at(k) is None,
    {
        let r = StateCache { indices: Vec::new(), records: Vec::new(), fields: Vec::new() };
        proof {
            assert forall|k: Seq<u8>| r.snapshots(k) is None by {
                lemma_spec_find_none(r.indices@, k);
            }
            assert forall|k: Seq<u8>| r.record_at(k) is None by {
                lemma_spec_find_none(r.records@, k);
            }
            assert forall|k: Seq<u8>| r.fields_at(k) is None by {
                lemma_spec_find_none(r.fields@, k);
            }
        }
        r
    }

    /// Finds the position of `key` among the snapshot indices.
    fn find_index_pos(&self, key: &Vec<u8>) -> (r: Option<usize>)
        ensures
            r matches Some(i) ==> i < self.indices@.len() && self.indices@[i as int].0@ == key@
                && spec_find(self.indices@, key@) == Some(self.indices@[i as int].1),
            r is None ==> spec_find(self.indices@, key@) is None,
    {
        let mut i: usize = 0;
        while i < self.indices.len()
            invariant
                i <= self.indices@.len(),
                forall|j: int| 0 <= j < i ==> (#[trigger] self.indices@[j]).0@ != key@,
            decreases self.indices@.len() - i,
        {
            if bytes_eq(&self.indices[i].0, key) {
                proof {
                    lemma_spec_find_at(self.indices@, key@, i as int);
                }
                return Some(i);
            }
            i = i + 1;
        }
        proof {
            lemma_spec_find_none(self.indices@, key@);
        }
        None
    }

    /// Finds the position of `key` among the value records.
    fn find_record_pos(&self, key: &Vec<u8>) -> (r: Option<usize>)
        ensures
            r matches Some(i) ==> i < self.records@.len() && self.records@[i as int].0@ == key@
                && spec_find(self.records@, key@) == Some(self.records@[i as int].1),
            r is None ==> spec_find(self.records@, key@) is None,
    {
        let mut i: usize = 0;
        while i < self.records.len()
            invariant
                i <= self.records@.len(),
                forall|j: int| 0 <= j < i ==> (#[trigger] self.records@[j]).0@ != key@,
            decreases self.records@.len() - i,
        {
            if bytes_eq(&self.records[i].0, key) {
                proof {
                    lemma_spec_find_at(self.records@, key@, i as int);
                }
                return Some(i);
            }
            i = i + 1;
        }
        proof {
            lemma_spec_find_none(self.records@, key@);
        }
        None
    }

    /// Finds the position of `key` among the field sets.
    fn find_fields_pos(&self, key: &Vec<u8>) -> (r: Option<usize>)
        ensures
            r matches Some(i) ==> i < self.fields@.len() && self.fields@[i as int].0@ == key@
                && spec_find(self.fields@, key@) == Some(self.fields@[i as int].1),
            r is None ==> spec_find(self.fields@, key@) is None,
    {
        let mut i: usize = 0;
        while i < self.fields.len()
            invariant
                i <= self.fields@.len(),
                forall|j: int| 0 <= j < i ==> (#[trigger] self.fields@[j]).0@ != key@,
            decreases self.fields@.len() - i,
        {
            if bytes_eq(&self.fields[i].0, key) {
                proof {
                    lemma_spec_find_at(self.fields@, key@, i as int);
                }
                return Some(i);
            }
            i = i + 1;
        }
        proof {
            lemma_spec_find_none(self.fields@, key@);
        }
        None
    }

    /// Fetches the raw payload recorded for a resolved content hash;
    /// empty when nothing is recorded. Re-fetching the same hash always
    /// yields identical bytes, since records are never rewritten.
    pub fn fetch(
        &self,
        scope: Scope,
        account: &AccountId,
        hash: &ContentHash,
        sub_key: Option<&Vec<u8>>,
    ) -> (r: Vec<u8>)
        ensures
            r@ == self.spec_fetch(scope, account@, hash@, opt_view(sub_key)),
    {
        let key = build_value_key(scope, account, hash.as_bytes(), sub_key);
        match self.find_record_pos(&key) {
            None => Vec::new(),
            Some(i) => copy_bytes(&self.records[i].1),
        }
    }

    /// Resolves `(scope, account, sub_key)` at `height` to the content hash
    /// of the most recent snapshot at or before `height`.
    pub fn resolve(
        &self,
        scope: Scope,
        account: &AccountId,
        sub_key: Option<&Vec<u8>>,
        height: u64,
    ) -> (r: Option<&ContentHash>)
        ensures
            r matches Some(c) ==> self.spec_resolve_at(scope, account@, opt_view(sub_key), height)
                == Some(c@),
            r is None ==> self.spec_resolve_at(scope, account@, opt_view(sub_key), height) is None,
    {
        let key = build_snapshot_key(scope, account, sub_key);
        match self.find_index_pos(&key) {
            None => None,
            Some(i) => self.indices[i].1.resolve(height),
        }
    }

    /// Fetches the payload of `(scope, account, sub_key)` as of `height`:
    /// resolution composed with the raw fetch; empty when no snapshot is
    /// recorded at or before `height`.
    pub fn fetch_versioned(
        &self,
        scope: Scope,
        account: &AccountId,
        sub_key: Option<&Vec<u8>>,
        height: u64,
    ) -> (r: Vec<u8>)
        ensures
            r@ == self.spec_fetch_versioned(scope, account@, opt_view(sub_key), height),
    {
        match self.resolve(scope, account, sub_key, height) {
            None => Vec::new(),
            Some(c) => {
                let hash = c.duplicate();
                self.fetch(scope, account, &hash, sub_key)
            },
        }
    }

    /// Records a snapshot produced at `height`: appends `(height, hash)` to
    /// the snapshot index of `(scope, account, sub_key)`, stores the payload
    /// under the value key, and, for contract storage, registers the sub-key
    /// in the account's field set. Heights in one index strictly increase
    /// (the index is append-only), and a value record, once written, is
    /// never changed.
    pub fn record(
        &mut self,
        scope: Scope,
        account: &AccountId,
        sub_key: Option<&Vec<u8>>,
        height: u64,
        hash: &ContentHash,
        payload: &Vec<u8>,
    )
        requires
            old(self).wf(),
            match old(self).snapshots(spec_snapshot_key(scope, account@, opt_view(sub_key))) {
                None => true,
                Some(s) => s.len() == 0 || s.last().0 < height,
            },
            match old(self).record_at(spec_value_key(scope, account@, hash@, opt_view(sub_key))) {
                None => true,
                Some(v) => v == payload@,
            },
        ensures
            final(self).wf(),
            final(self).snapshots(spec_snapshot_key(scope, account@, opt_view(sub_key))) == Some(
                (match old(self).snapshots(spec_snapshot_key(scope, account@, opt_view(sub_key))) {
                    None => Seq::<(u64, Seq<u8>)>::empty(),
                    Some(s) => s,
                }).push((height, hash@)),
            ),
            forall|k: Seq<u8>|
                k != spec_snapshot_key(scope, account@, opt_view(sub_key))
                    ==> final(self).snapshots(k) == old(self).snapshots(k),
            final(self).record_at(spec_value_key(scope, account@, hash@, opt_view(sub_key)))
                == Some(payload@),
            forall|k: Seq<u8>|
                k != spec_value_key(scope, account@, hash@, opt_view(sub_key))
                    ==> final(self).record_at(k) == old(self).record_at(k),
            scope == Scope::ContractStorage && sub_key is Some ==> (match final(self).fields_at(
                spec_field_set_key(Scope::ContractStorage, account@),
            ) {
                None => false,
                Some(l2) => list_contains(l2, opt_view(sub_key).unwrap()) && (match old(self)
                    .fields_at(spec_field_set_key(Scope::ContractStorage, account@)) {
                    None => l2.len() == 1,
                    Some(l) => if list_contains(l, opt_view(sub_key).unwrap()) {
                        l2 == l
                    } else {
                        l2.len() == l.len() + 1 && (forall|j: int| 0 <= j < l.len() ==> l2[j]
                            == l[j])
                    },
                }),
            }),
            !(scope == Scope::ContractStorage && sub_key is Some) ==> forall|k: Seq<u8>|
                final(self).fields_at(k) == old(self).fields_at(k),
            forall|k: Seq<u8>|
                k != spec_field_set_key(Scope::ContractStorage, account@)
                    ==> final(self).fields_at(k) == old(self).fields_at(k),
    {
        let ghost sk = spec_snapshot_key(scope, account@, opt_view(sub_key));
        let ghost vk = spec_value_key(scope, account@, hash@, opt_view(sub_key));
        let ghost fk = spec_field_set_key(Scope::ContractStorage, account@);
        // 1. Extend or create the snapshot index.
        let skey = build_snapshot_key(scope, account, sub_key);
        match self.find_index_pos(&skey) {
            Some(i) => {
                let ghost before = self.indices@;
                let mut pair = self.indices.remove(i);
                pair.1.record(height, hash.duplicate());
                self.indices.insert(i, pair);
                proof {
                    assert(self.indices@ =~= before.update(
                        i as int,
                        (before[i as int].0, self.indices@[i as int].1),
                    ));
                    assert forall|k: Seq<u8>| true implies #[trigger] spec_find(self.indices@, k)
                        == (if k == sk {
                        Some(self.indices@[i as int].1)
                    } else {
                        spec_find(before, k)
                    }) by {
                        lemma_spec_find_update(
                            before,
                            i as int,
                            (before[i as int].0, self.indices@[i as int].1),
                            k,
                        );
                    }
                    assert(keys_unique(self.indices@));
                }
            },
            None => {
                let mut ix = SnapshotIndex::new();
                ix.record(height, hash.duplicate());
                let ghost before = self.indices@;
                self.indices.push((skey, ix));
                proof {
                    lemma_spec_find_none_forall(before, sk);
                    assert forall|k: Seq<u8>| true implies #[trigger] spec_find(self.indices@, k)
                        == (if k == sk {
                        Some(self.indices@[before.len() as int].1)
                    } else {
                        spec_find(before, k)
                    }) by {
                        lemma_spec_find_push(before, (skey, self.indices@[before.len() as int].1), k);
                    }
                    assert(keys_unique(self.indices@));
                    assert(self.indices@[before.len() as int].1@ =~= Seq::<(u64, Seq<u8>)>::empty().push(
                        (height, hash@),
                    ));
                }
            },
        }
        assert(self.snapshots(sk) == Some(
            (match old(self).snapshots(sk) {
                None => Seq::<(u64, Seq<u8>)>::empty(),
                Some(s) => s,
            }).push((height, hash@)),
        ));
        assert(forall|k: Seq<u8>| k != sk ==> #[trigger] self.snapshots(k) == old(self).snapshots(k));
        // 2. Store the payload, write-once.
        let vkey = build_value_key(scope, account, hash.as_bytes(), sub_key);
        match self.find_record_pos(&vkey) {
            Some(_) => {
            },
            None => {
                let ghost before = self.records@;
                self.records.push((vkey, copy_bytes(payload)));
                proof {
                    lemma_spec_find_none_forall(before, vk);
                    assert forall|k: Seq<u8>| true implies #[trigger] spec_find(self.records@, k)
                        == (if k == vk {
                        Some(self.records@[before.len() as int].1)
                    } else {
                        spec_find(before, k)
                    }) by {
                        lemma_spec_find_push(before, (vkey, self.records@[before.len() as int].1), k);
                    }
                    assert(keys_unique(self.records@));
                }
            },
        }
        assert(self.record_at(vk) == Some(payload@));
        assert(forall|k: Seq<u8>| k != vk ==> #[trigger] self.record_at(k) == old(self).record_at(k));
        // 3. Register the storage sub-key in the account's field set.
        let is_storage = match scope {
            Scope::ContractStorage => true,
            _ => false,
        };
        if is_storage {
            match sub_key {
                None => {},
                Some(s) => {
                    let fkey = build_field_set_key(Scope::ContractStorage, account);
                    match self.find_fields_pos(&fkey) {
                        None => {
                            let mut l: Vec<Vec<u8>> = Vec::new();
                            l.push(copy_bytes(s));
                            let ghost before = self.fields@;
                            let ghost lv = l@;
                            self.fields.push((fkey, l));
                            proof {
                                lemma_spec_find_none_forall(before, fk);
                                assert forall|k: Seq<u8>| true implies #[trigger] spec_find(
                                    self.fields@,
                                    k,
                                ) == (if k == fk {
                                    Some(self.fields@[before.len() as int].1)
                                } else {
                                    spec_find(before, k)
                                }) by {
                                    lemma_spec_find_push(
                                        before,
                                        (fkey, self.fields@[before.len() as int].1),
                                        k,
                                    );
                                }
                                assert(keys_unique(self.fields@));
                                assert(lv[0]@ == s@);
                                assert(list_contains(lv, s@));
                            }
                        },
                        Some(i) => {
                            if !list_has(&self.fields[i].1, s) {
                                let ghost before = self.fields@;
                                let mut pair = self.fields.remove(i);
                                pair.1.push(copy_bytes(s));
                                let ghost newl = pair.1@;
                                self.fields.insert(i, pair);
                                proof {
                                    assert(self.fields@ =~= before.update(
                                        i as int,
                                        (before[i as int].0, self.fields@[i as int].1),
                                    ));
                                    assert forall|k: Seq<u8>| true implies #[trigger] spec_find(
                                        self.fields@,
                                        k,
                                    ) == (if k == fk {
                                        Some(self.fields@[i as int].1)
                                    } else {
                                        spec_find(before, k)
                                    }) by {
                                        lemma_spec_find_update(
                                            before,
                                            i as int,
                                            (before[i as int].0, self.fields@[i as int].1),
                                            k,
                                        );
                                    }
                                    assert(keys_unique(self.fields@));
                                    assert(newl[newl.len() - 1]@ == s@);
                                    assert(list_contains(newl, s@));
                                }
                            }
                        },
                    }
                },
            }
        }
        proof {
            assert(self.wf());
        }
    }

    /// The recorded storage sub-keys of `account`, if any.
    pub fn fields_of(&self, account: &AccountId) -> (r: Option<&Vec<Vec<u8>>>)
        ensures
            r matches Some(l) ==> self.fields_at(spec_field_set_key(Scope::ContractStorage, account@))
                == Some(l@),
            r is None ==> self.fields_at(spec_field_set_key(Scope::ContractStorage, account@))
                is None,
    {
        let key = build_field_set_key(Scope::ContractStorage, account);
        match self.find_fields_pos(&key) {
            None => None,
            Some(i) => Some(&self.fields[i].1),
        }
    }
}

/// Point-in-time consistency across the whole cache: wherever a snapshot
/// index is recorded, the hash that resolution picks for a height is the
/// one recorded at the greatest height at or below it, and resolution
/// reports nothing exactly when every recorded height lies above it.
pub proof fn lemma_resolve_at_is_greatest(
    cache: StateCache,
    scope: Scope,
    account: Seq<u8>,
    sub_key: Option<Seq<u8>>,
    h: u64,
)
    requires
        cache.wf(),
    ensures
        match cache.snapshots(spec_snapshot_key(scope, account, sub_key)) {
            None => cache.spec_resolve_at(scope, account, sub_key, h) is None,
            Some(s) => resolve_post(s, h, cache.spec_resolve_at(scope, account, sub_key, h)),
        },
{
    let k = spec_snapshot_key(scope, account, sub_key);
    match spec_find(cache.indices@, k) {
        None => {},
        Some(ix) => {
            lemma_spec_find_member(cache.indices@, k);
            let i = choose|i: int|
                0 <= i < cache.indices@.len() && (#[trigger] cache.indices@[i]).0@ == k
                    && cache.indices@[i].1 == spec_find(cache.indices@, k).unwrap();
            assert(cache.indices@[i].1.wf());
            lemma_resolve_is_greatest(ix@, h);
        },
    }
}

} // verus!
