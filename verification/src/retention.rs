//! The retention policy: global entries have a maximal age, and each bucket, that
//! is a theme within a session or among the global entries, has a maximal size.

use crate::numbers::{double_is_nan, double_key, double_less, double_lt, double_order};
use crate::rows::{kept, views};
use crate::store::{
    applied, loaded_index, IndexChange, Outcome, Plan, SessionChange, Store, StoreModel,
};
use crate::tables::{Entry, EntryModel, Memento};
use crate::text::{as_text, same_optional, same_text};
use vstd::prelude::*;

verus! {

/// The answer to `prune`.
pub struct Pruned {
    pub pruned: usize,
}

/// Whether an entry is past its age: it is global and was stored before `cutoff`.
pub open spec fn too_old(e: EntryModel, cutoff: u64) -> bool {
    e.session_id is None && double_less(e.stored_at, cutoff)
}

/// Whether two entries lie in the same bucket.
pub open spec fn same_bucket(a: EntryModel, b: EntryModel) -> bool {
    a.theme == b.theme && a.session_id == b.session_id
}

/// Whether entry `j` is later than entry `i`: it was stored later, or at the same
/// instant and added later.
pub open spec fn later(entries: Seq<EntryModel>, j: int, i: int) -> bool {
    ||| double_key(entries[j].stored_at) > double_key(entries[i].stored_at)
    ||| double_key(entries[j].stored_at) == double_key(entries[i].stored_at) && j > i
}

/// The later entries of the bucket of entry `i` that are not past their age.
pub open spec fn rivals(entries: Seq<EntryModel>, cutoff: u64, i: int) -> spec_fn(int) -> bool {
    |j: int|
        !too_old(entries[j], cutoff) && same_bucket(entries[j], entries[i]) && later(entries, j, i)
}

/// How many of the numbers below `n` have a property.
pub open spec fn count_where(property: spec_fn(int) -> bool, n: int) -> nat
    decreases n,
{
    if n <= 0 {
        0
    } else {
        count_where(property, n - 1) + if property(n - 1) {
            1nat
        } else {
            0nat
        }
    }
}

/// Whether entry `i` stays: it is not past its age, and fewer than `max` entries
/// of its bucket that are not past theirs are later.
pub open spec fn stays(entries: Seq<EntryModel>, cutoff: u64, max: nat, i: int) -> bool {
    &&& !too_old(entries[i], cutoff)
    &&& count_where(rivals(entries, cutoff, i), entries.len() as int) < max
}

/// For each entry, whether it stays.
pub open spec fn staying(entries: Seq<EntryModel>, cutoff: u64, max: nat) -> Seq<bool> {
    Seq::new(entries.len(), |i: int| stays(entries, cutoff, max, i))
}

/// The entries that stay.
pub open spec fn pruned_entries(
    entries: Seq<EntryModel>,
    cutoff: u64,
    max: nat,
) -> Seq<EntryModel> {
    kept(entries, staying(entries, cutoff, max))
}

/// The store after pruning. The index is rebuilt if an entry has gone.
pub open spec fn pruned_store(store: StoreModel, cutoff: u64, max: nat) -> StoreModel {
    let entries = pruned_entries(store.entries, cutoff, max);
    StoreModel {
        entries,
        index: if entries.len() < store.entries.len() {
            loaded_index(entries)
        } else {
            store.index
        },
        ..store
    }
}

/// The first entry, from `j` on, of the bucket of entry `i` that is not past its age.
pub open spec fn bucket_start(entries: Seq<EntryModel>, cutoff: u64, i: int, j: int) -> int
    decreases i - j,
{
    if j >= i || (!too_old(entries[j], cutoff) && same_bucket(entries[j], entries[i])) {
        j
    } else {
        bucket_start(entries, cutoff, i, j + 1)
    }
}

/// The part of pruning with which each entry leaves, if it does. The entries past
/// their age are the first part; then come the buckets one by one, here in the
/// order in which they start.
pub open spec fn prune_parts(entries: Seq<EntryModel>, cutoff: u64) -> Seq<usize> {
    Seq::new(
        entries.len(),
        |i: int|
            if too_old(entries[i], cutoff) {
                0
            } else {
                (1 + bucket_start(entries, cutoff, i, 0)) as usize
            },
    )
}

/// Whether an entry is past its age.
fn is_too_old(e: &Entry, cutoff: u64) -> (r: bool)
    ensures
        r == too_old(e@, cutoff),
        r == (e.session_id is None && !double_is_nan(e.stored_at) && !double_is_nan(cutoff)
            && double_key(e.stored_at) < double_key(cutoff)),
{
    e.session_id.is_none() && double_lt(e.stored_at, cutoff)
}

/// Whether two entries lie in the same bucket.
fn in_same_bucket(a: &Entry, b: &Entry) -> (r: bool)
    ensures
        r == same_bucket(a@, b@),
{
    same_text(a.theme.as_str(), b.theme.as_str()) && same_optional(
        &a.session_id,
        as_text(&b.session_id),
    )
}

/// The part of pruning with which entry `i` leaves, if it does.
fn part_of(entries: &Vec<Entry>, cutoff: u64, i: usize) -> (part: usize)
    requires
        i < entries@.len(),
    ensures
        part == prune_parts(views(entries@), cutoff)[i as int],
{
    let ghost all = views(entries@);
    if is_too_old(&entries[i], cutoff) {
        return 0;
    }
    let count: usize = entries.len();
    let mut j: usize = 0;
    while j < i && (is_too_old(&entries[j], cutoff) || !in_same_bucket(&entries[j], &entries[i]))
        invariant
            j <= i < entries@.len() == count,
            all == views(entries@),
            bucket_start(all, cutoff, i as int, 0) == bucket_start(all, cutoff, i as int, j as int),
        decreases i - j,
    {
        j = j + 1;
    }
    assert(bucket_start(all, cutoff, i as int, j as int) == j);
    j + 1
}

/// Whether entry `j` is one of the later entries of the bucket of entry `i`.
fn is_rival(entries: &Vec<Entry>, cutoff: u64, i: usize, j: usize) -> (r: bool)
    requires
        i < entries@.len(),
        j < entries@.len(),
    ensures
        r == rivals(views(entries@), cutoff, i as int)(j as int),
{
    let a: &Entry = &entries[j];
    let b: &Entry = &entries[i];
    let in_bucket: bool = in_same_bucket(a, b);
    let x: i64 = double_order(a.stored_at);
    let y: i64 = double_order(b.stored_at);
    !is_too_old(a, cutoff) && in_bucket && (x > y || (x == y && j > i))
}

/// How many later entries the bucket of entry `i` has.
fn count_rivals(entries: &Vec<Entry>, cutoff: u64, i: usize) -> (count: usize)
    requires
        i < entries@.len(),
    ensures
        count == count_where(rivals(views(entries@), cutoff, i as int), entries@.len() as int),
{
    let mut count: usize = 0;
    let mut j: usize = 0;
    while j < entries.len()
        invariant
            i < entries@.len(),
            count <= j <= entries@.len(),
            count == count_where(rivals(views(entries@), cutoff, i as int), j as int),
        decreases entries.len() - j,
    {
        if is_rival(entries, cutoff, i, j) {
            count = count + 1;
        }
        j = j + 1;
    }
    count
}

impl Store {
    /// Plans the retention policy: entries past their age go, and of each bucket
    /// all but the latest `max_per_theme` entries. The plan is in parts.
    pub fn plan_prune(&self, cutoff: u64, max_per_theme: usize) -> (r: (Plan, Pruned))
        ensures
            applied(self@, r.0@) == pruned_store(self@, cutoff, max_per_theme as nat),
            r.0@.keep == staying(self@.entries, cutoff, max_per_theme as nat),
            r.0@.parts == Some(prune_parts(self@.entries, cutoff)),
            r.1.pruned == self@.entries.len() - pruned_entries(
                self@.entries,
                cutoff,
                max_per_theme as nat,
            ).len(),
    {
        let ghost all = self@.entries;
        let ghost flags = staying(all, cutoff, max_per_theme as nat);
        let mut keep: Vec<bool> = Vec::new();
        let mut parts: Vec<usize> = Vec::new();
        let mut pruned: usize = 0;
        let mut i: usize = 0;
        while i < self.entries.len()
            invariant
                pruned <= i == keep@.len() == parts@.len() <= self.entries@.len(),
                all == self@.entries,
                flags == staying(all, cutoff, max_per_theme as nat),
                forall|k: int| 0 <= k < i ==> #[trigger] keep@[k] == flags[k],
                forall|k: int|
                    0 <= k < i ==> #[trigger] parts@[k] == prune_parts(all, cutoff)[k],
                pruned == i - kept(all.take(i as int), flags).len(),
            decreases self.entries.len() - i,
        {
            let stay: bool = !is_too_old(&self.entries[i], cutoff) && count_rivals(
                &self.entries,
                cutoff,
                i,
            ) < max_per_theme;
            proof {
                let next = all.take(i + 1);
                assert(next.drop_last() =~= all.take(i as int));
                assert(stay == flags[i as int]);
            }
            keep.push(stay);
            parts.push(part_of(&self.entries, cutoff, i));
            if !stay {
                pruned = pruned + 1;
            }
            i = i + 1;
        }
        assert(all.take(i as int) =~= all);
        assert(keep@ =~= flags);
        assert(parts@ =~= prune_parts(all, cutoff));
        let index: IndexChange = if pruned > 0 {
            IndexChange::Rebuild
        } else {
            IndexChange::Keep
        };
        let archive: Vec<Memento> = Vec::new();
        let plan = Plan {
            keep,
            parts: Some(parts),
            archive,
            add: None,
            session: SessionChange::Keep,
            index,
        };
        assert(self@.mementos + plan@.archive =~= self@.mementos);
        (plan, Pruned { pruned })
    }

    /// Runs the retention policy. `cutoff` is the time, as the bit pattern of a
    /// double, before which global entries are past their age.
    pub fn cmd_prune(&mut self, cutoff: u64, max_per_theme: usize) -> (r: Pruned)
        ensures
            final(self)@ == pruned_store(old(self)@, cutoff, max_per_theme as nat),
            r.pruned == old(self)@.entries.len() - final(self)@.entries.len(),
    {
        let (plan, reply): (Plan, Pruned) = self.plan_prune(cutoff, max_per_theme);
        let _ = self.settle(plan, Outcome::Done);
        reply
    }
}

} // verus!
