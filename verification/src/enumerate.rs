use vstd::prelude::*;
use crate::bytes::{copy_bytes, has_prefix, is_prefix_of};
use crate::cache::StateCache;
use crate::ids::AccountId;
use crate::keys::{spec_field_set_key, Scope};

verus! {

/// How many fields one scan page may carry.
pub const PAGE_SIZE: usize = 1000;

/// How many scan pages one enumeration may process.
pub const SCAN_PAGE_CAP: usize = 10;

/// The cap on the number of accumulated entries; one further page may finish
/// after the cap is crossed, so a result never exceeds it by more than a
/// page.
pub const MAX_LIMIT: usize = 100;

/// The entries of a result, as views.
pub open spec fn entries_view(v: Seq<(Vec<u8>, Vec<u8>)>) -> Seq<(Seq<u8>, Seq<u8>)> {
    v.map(|i: int, p: (Vec<u8>, Vec<u8>)| (p.0@, p.1@))
}

/// The exact enumeration of `fields`: for each recorded sub-key matching
/// `prefix`, in recording order, the payload resolved at `h`; sub-keys whose
/// resolved payload is empty (deleted, or not yet recorded at `h`) are left
/// out.
pub open spec fn spec_entries(
    cache: StateCache,
    account: Seq<u8>,
    h: u64,
    prefix: Seq<u8>,
    fields: Seq<Vec<u8>>,
) -> Seq<(Seq<u8>, Seq<u8>)>
    decreases fields.len(),
{
    if fields.len() == 0 {
        Seq::empty()
    } else {
        let rest = spec_entries(cache, account, h, prefix, fields.drop_last());
        let f = fields.last();
        let v = cache.spec_fetch_versioned(Scope::ContractStorage, account, Some(f@), h);
        if is_prefix_of(prefix, f@) && v.len() > 0 {
            rest.push((f@, v))
        } else {
            rest
        }
    }
}

/// Every entry of the exact enumeration is a recorded sub-key that matches
/// the prefix, paired with its non-empty payload as of `h`.
pub proof fn lemma_spec_entries_sound(
    cache: StateCache,
    account: Seq<u8>,
    h: u64,
    prefix: Seq<u8>,
    fields: Seq<Vec<u8>>,
)
    ensures
        forall|j: int|
            0 <= j < spec_entries(cache, account, h, prefix, fields).len() ==> {
                let e = #[trigger] spec_entries(cache, account, h, prefix, fields)[j];
                &&& is_prefix_of(prefix, e.0)
                &&& e.1 == cache.spec_fetch_versioned(Scope::ContractStorage, account, Some(e.0), h)
                &&& e.1.len() > 0
                &&& exists|i: int| 0 <= i < fields.len() && (#[trigger] fields[i])@ == e.0
            },
    decreases fields.len(),
{
    if fields.len() > 0 {
        let t = fields.drop_last();
        lemma_spec_entries_sound(cache, account, h, prefix, t);
        assert(forall|i: int| 0 <= i < t.len() ==> (#[trigger] t[i]) == fields[i]);
        assert(fields[fields.len() - 1] == fields.last());
        let full = spec_entries(cache, account, h, prefix, fields);
        let rest = spec_entries(cache, account, h, prefix, t);
        assert forall|j: int| 0 <= j < full.len() implies {
            let e = #[trigger] full[j];
            &&& is_prefix_of(prefix, e.0)
            &&& e.1 == cache.spec_fetch_versioned(Scope::ContractStorage, account, Some(e.0), h)
            &&& e.1.len() > 0
            &&& exists|i: int| 0 <= i < fields.len() && (#[trigger] fields[i])@ == e.0
        } by {
            if j < rest.len() {
                assert(full[j] == rest[j]);
                let e = rest[j];
                let i = choose|i: int| 0 <= i < t.len() && (#[trigger] t[i])@ == e.0;
                assert(fields[i] == t[i]);
                assert(0 <= i < fields.len() && fields[i]@ == e.0);
            } else {
                assert(fields[fields.len() - 1]@ == full[j].0);
            }
        }
    }
}

/// The outcome of a bounded enumeration: the entries gathered, and whether
/// the scan covered the whole field set (`complete`) or stopped early at one
/// of the caps, in which case the result may miss entries but every entry it
/// holds is genuine.
pub struct StateResult {
    pub entries: Vec<(Vec<u8>, Vec<u8>)>,
    pub complete: bool,
}

/// The recorded sub-keys of `account`, or none.
pub open spec fn spec_account_fields(cache: StateCache, account: Seq<u8>) -> Seq<Vec<u8>> {
    match cache.fields_at(spec_field_set_key(Scope::ContractStorage, account)) {
        None => Seq::empty(),
        Some(l) => l,
    }
}

/// Bounded, paginated discovery of the contract-storage entries of
/// `account` as of `height`, optionally filtered by `prefix` (an empty
/// prefix matches everything). Pages of up to `PAGE_SIZE` fields are
/// processed; the scan stops when the field set is exhausted (`complete`,
/// the result is exact), after `SCAN_PAGE_CAP` pages, or once the result
/// has outgrown `MAX_LIMIT`.
pub fn enumerate(cache: &StateCache, account: &AccountId, height: u64, prefix: &Vec<u8>) -> (r:
    StateResult)
    ensures
        r.complete ==> entries_view(r.entries@) == spec_entries(
            *cache,
            account@,
            height,
            prefix@,
            spec_account_fields(*cache, account@),
        ),
        !r.complete ==> r.entries@.len() > MAX_LIMIT || spec_account_fields(*cache, account@).len()
            > PAGE_SIZE * SCAN_PAGE_CAP,
        r.entries@.len() <= MAX_LIMIT + PAGE_SIZE,
        exists|m: int|
            {
                &&& 0 <= m <= spec_account_fields(*cache, account@).len()
                &&& entries_view(r.entries@) == spec_entries(
                    *cache,
                    account@,
                    height,
                    prefix@,
                    #[trigger] spec_account_fields(*cache, account@).subrange(0, m),
                )
                &&& (r.complete <==> m == spec_account_fields(*cache, account@).len())
                &&& (!r.complete ==> r.entries@.len() > MAX_LIMIT || m == PAGE_SIZE
                    * SCAN_PAGE_CAP)
            },
{
    let fields: &Vec<Vec<u8>> = match cache.fields_of(account) {
        None => {
            let r = StateResult { entries: Vec::new(), complete: true };
            proof {
                assert(entries_view(r.entries@) =~= Seq::<(Seq<u8>, Seq<u8>)>::empty());
                assert(spec_account_fields(*cache, account@).subrange(0, 0)
                    =~= Seq::<Vec<u8>>::empty());
            }
            return r;
        },
        Some(l) => l,
    };
    let n = fields.len();
    let mut items: Vec<(Vec<u8>, Vec<u8>)> = Vec::new();
    let mut i: usize = 0;
    let mut pages: usize = 0;
    let mut over = false;
    proof {
        assert(entries_view(items@) =~= Seq::<(Seq<u8>, Seq<u8>)>::empty());
        assert(fields@.subrange(0, 0) =~= Seq::<Vec<u8>>::empty());
    }
    while i < n && pages < SCAN_PAGE_CAP && !over
        invariant
            i <= n,
            n == fields@.len(),
            fields@ == spec_account_fields(*cache, account@),
            pages <= SCAN_PAGE_CAP,
            i == pages * PAGE_SIZE || i == n,
            entries_view(items@) == spec_entries(
                *cache,
                account@,
                height,
                prefix@,
                fields@.subrange(0, i as int),
            ),
            over ==> items@.len() > MAX_LIMIT,
            !over ==> items@.len() <= MAX_LIMIT,
            items@.len() <= MAX_LIMIT + PAGE_SIZE,
        decreases n - i,
    {
        let page_end = if n - i > PAGE_SIZE {
            i + PAGE_SIZE
        } else {
            n
        };
        let ghost page_start = i;
        while i < page_end
            invariant
                page_start <= i <= page_end <= n,
                page_end - page_start <= PAGE_SIZE,
                n == fields@.len(),
                fields@ == spec_account_fields(*cache, account@),
                entries_view(items@) == spec_entries(
                    *cache,
                    account@,
                    height,
                    prefix@,
                    fields@.subrange(0, i as int),
                ),
                items@.len() <= MAX_LIMIT + (i - page_start),
            decreases page_end - i,
        {
            let ghost pre = fields@.subrange(0, i as int);
            let f = &fields[i];
            proof {
                assert(fields@.subrange(0, i as int + 1).drop_last() =~= pre);
                assert(fields@.subrange(0, i as int + 1).last() == fields@[i as int]);
            }
            if has_prefix(f, prefix) {
                let v = cache.fetch_versioned(Scope::ContractStorage, account, Some(f), height);
                if v.len() > 0 {
                    let ghost vv = v@;
                    items.push((copy_bytes(f), v));
                    assert(entries_view(items@) =~= entries_view(items@.drop_last()).push(
                        (fields@[i as int]@, vv),
                    ));
                }
            }
            assert(entries_view(items@) =~= spec_entries(
                *cache,
                account@,
                height,
                prefix@,
                fields@.subrange(0, i as int + 1),
            ));
            i = i + 1;
        }
        pages = pages + 1;
        if items.len() > MAX_LIMIT {
            over = true;
        }
    }
    let complete = i >= n;
    proof {
        if complete {
            assert(fields@.subrange(0, n as int) =~= fields@);
        } else {
            if pages >= SCAN_PAGE_CAP {
                assert(i == pages * PAGE_SIZE);
                assert(i >= PAGE_SIZE * SCAN_PAGE_CAP);
            }
        }
    }
    StateResult { entries: items, complete }
}

/// A paginated scan in progress against the external cache: the entries
/// kept so far and the number of pages processed. The surrounding service
/// fetches each page of sub-keys and their payloads as of the requested
/// height; this session makes the decisions: which entries to keep, and
/// when to stop.
pub struct ScanSession {
    pub items: Vec<(Vec<u8>, Vec<u8>)>,
    pub steps: usize,
}

/// The entries of one page whose payload is non-empty, in page order.
pub open spec fn spec_keep_nonempty(p: Seq<(Vec<u8>, Vec<u8>)>) -> Seq<(Seq<u8>, Seq<u8>)>
    decreases p.len(),
{
    if p.len() == 0 {
        Seq::empty()
    } else {
        let rest = spec_keep_nonempty(p.drop_last());
        if p.last().1@.len() > 0 {
            rest.push((p.last().0@, p.last().1@))
        } else {
            rest
        }
    }
}

impl ScanSession {
    /// An empty scan, before the first page.
    pub fn start() -> (r: ScanSession)
        ensures
            r.items@ == Seq::<(Vec<u8>, Vec<u8>)>::empty(),
            r.steps == 0,
    {
        ScanSession { items: Vec::new(), steps: 0 }
    }

    /// Takes one page of `(sub_key, payload)` pairs from the external scan
    /// cursor, keeps those with a non-empty payload, and decides whether the
    /// scan goes on: it stops once the cursor has wrapped around to its
    /// start, after `SCAN_PAGE_CAP` pages, or once the result has outgrown
    /// `MAX_LIMIT`.
    pub fn on_page(&mut self, page: Vec<(Vec<u8>, Vec<u8>)>, cursor_wrapped: bool) -> (more: bool)
        requires
            old(self).steps < SCAN_PAGE_CAP,
        ensures
            final(self).steps == old(self).steps + 1,
            entries_view(final(self).items@) == entries_view(old(self).items@)
                + spec_keep_nonempty(page@),
            more <==> (!cursor_wrapped && final(self).steps < SCAN_PAGE_CAP
                && final(self).items@.len() <= MAX_LIMIT),
    {
        let mut j: usize = 0;
        proof {
            assert(page@.subrange(0, 0) =~= Seq::<(Vec<u8>, Vec<u8>)>::empty());
            assert(entries_view(self.items@) + spec_keep_nonempty(page@.subrange(0, 0))
                =~= entries_view(self.items@));
        }
        let ghost base = entries_view(self.items@);
        while j < page.len()
            invariant
                j <= page@.len(),
                self.steps == old(self).steps,
                self.steps < SCAN_PAGE_CAP,
                entries_view(self.items@) == base + spec_keep_nonempty(
                    page@.subrange(0, j as int),
                ),
            decreases page@.len() - j,
        {
            let ghost pre = page@.subrange(0, j as int);
            proof {
                assert(page@.subrange(0, j as int + 1).drop_last() =~= pre);
                assert(page@.subrange(0, j as int + 1).last() == page@[j as int]);
            }
            if page[j].1.len() > 0 {
                let key = copy_bytes(&page[j].0);
                let value = copy_bytes(&page[j].1);
                let ghost kv = (key@, value@);
                let ghost prev = self.items@;
                self.items.push((key, value));
                assert(self.items@.drop_last() =~= prev);
                assert(entries_view(self.items@) =~= entries_view(prev).push(kv));
                assert((base + spec_keep_nonempty(pre)).push(kv) =~= base + spec_keep_nonempty(
                    pre,
                ).push(kv));
            }
            assert(entries_view(self.items@) =~= base + spec_keep_nonempty(
                page@.subrange(0, j as int + 1),
            ));
            j = j + 1;
        }
        assert(page@.subrange(0, page@.len() as int) =~= page@);
        self.steps = self.steps + 1;
        !cursor_wrapped && self.steps < SCAN_PAGE_CAP && self.items.len() <= MAX_LIMIT
    }
}

} // verus!
