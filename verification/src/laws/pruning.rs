//! Laws of `prune`.

use crate::laws::consistency::{id_of_entry, unique_entries};
use crate::numbers::{double_is_nan, double_key};
use crate::recall::{latest_entries, recall_matches};
use crate::retention::{
    bucket_start, count_where, later, prune_parts, pruned_entries, pruned_store, rivals,
    same_bucket, staying, stays, too_old,
};
use crate::rows::{
    kept, lemma_filter_has, lemma_filter_last, lemma_filter_order, lemma_filter_same,
    lemma_filter_twice, lemma_kept_has, lemma_kept_is_filter, lemma_kept_whole,
    lemma_ranked_contains, lemma_ranked_filter, lemma_ranked_in_order, lemma_ranked_pair,
    lemma_ranked_same_rows, ranked, stands_before, Ranked,
};
use crate::store::{left_after, loaded_index, PlanModel, StoreModel};
use crate::tables::{Entry, EntryModel};
use vstd::prelude::*;

verus! {

/// The entries of a bucket.
pub open spec fn in_bucket(
    theme: Seq<char>,
    session: Option<Seq<char>>,
) -> spec_fn(EntryModel) -> bool {
    |e: EntryModel| e.theme == theme && e.session_id == session
}

/// The entries of a bucket that were not stored before the cutoff, or belong to a
/// session.
pub open spec fn fresh_in_bucket(
    theme: Seq<char>,
    session: Option<Seq<char>>,
    cutoff: u64,
) -> spec_fn(EntryModel) -> bool {
    |e: EntryModel|
        {
            &&& e.theme == theme
            &&& e.session_id == session
            &&& e.session_id is Some || double_is_nan(e.stored_at) || double_is_nan(cutoff)
                || double_key(e.stored_at) >= double_key(cutoff)
        }
}

proof fn lemma_count_same(p: spec_fn(int) -> bool, q: spec_fn(int) -> bool, n: int)
    requires
        forall|j: int| 0 <= j < n ==> #[trigger] p(j) == q(j),
    ensures
        count_where(p, n) == count_where(q, n),
    decreases n,
{
    if n > 0 {
        lemma_count_same(p, q, n - 1);
        assert(p(n - 1) == q(n - 1));
    }
}

proof fn lemma_count_within(p: spec_fn(int) -> bool, q: spec_fn(int) -> bool, n: int)
    requires
        forall|j: int| 0 <= j < n && #[trigger] p(j) ==> q(j),
    ensures
        count_where(p, n) <= count_where(q, n),
    decreases n,
{
    if n > 0 {
        lemma_count_within(p, q, n - 1);
        assert(p(n - 1) ==> q(n - 1));
    }
}

proof fn lemma_count_one_more(p: spec_fn(int) -> bool, q: spec_fn(int) -> bool, x: int, n: int)
    requires
        0 <= x < n,
        !p(x),
        q(x),
        forall|j: int| 0 <= j < n && j != x ==> #[trigger] p(j) == q(j),
    ensures
        count_where(q, n) == count_where(p, n) + 1,
    decreases n,
{
    if x == n - 1 {
        assert forall|j: int| 0 <= j < n - 1 implies #[trigger] p(j) == q(j) by {}
        lemma_count_same(p, q, n - 1);
    } else {
        lemma_count_one_more(p, q, x, n - 1);
        assert(p(n - 1) == q(n - 1));
    }
}

proof fn lemma_count_none(p: spec_fn(int) -> bool, n: int)
    requires
        forall|j: int| 0 <= j < n ==> !#[trigger] p(j),
    ensures
        count_where(p, n) == 0,
    decreases n,
{
    if n > 0 {
        lemma_count_none(p, n - 1);
        assert(!p(n - 1));
    }
}

/// The members that are later than member `i`.
spec fn later_members(
    entries: Seq<EntryModel>,
    member: spec_fn(int) -> bool,
    i: int,
) -> spec_fn(int) -> bool {
    |j: int| member(j) && later(entries, j, i)
}

/// The members that fewer than `max` members are later than.
spec fn latest_members(
    entries: Seq<EntryModel>,
    member: spec_fn(int) -> bool,
    n: int,
    max: nat,
) -> spec_fn(int) -> bool {
    |i: int| member(i) && count_where(later_members(entries, member, i), n) < max
}

/// Among the members there is a latest one.
proof fn lemma_latest_member(
    entries: Seq<EntryModel>,
    member: spec_fn(int) -> bool,
    n: int,
) -> (x: int)
    requires
        count_where(member, n) > 0,
    ensures
        0 <= x < n,
        member(x),
        forall|j: int| 0 <= j < n && #[trigger] member(j) && j != x ==> later(entries, x, j),
    decreases n,
{
    if count_where(member, n - 1) > 0 {
        let x = lemma_latest_member(entries, member, n - 1);
        if member(n - 1) && later(entries, n - 1, x) {
            n - 1
        } else {
            x
        }
    } else {
        assert(member(n - 1));
        assert forall|j: int| 0 <= j < n && #[trigger] member(j) && j != n - 1 implies later(
            entries,
            n - 1,
            j,
        ) by {
            lemma_count_positive(member, j, n - 1);
        }
        n - 1
    }
}

proof fn lemma_count_positive(p: spec_fn(int) -> bool, x: int, n: int)
    requires
        0 <= x < n,
        p(x),
    ensures
        count_where(p, n) > 0,
    decreases n,
{
    if x < n - 1 {
        lemma_count_positive(p, x, n - 1);
    }
}

/// Of the members, `max` have fewer than `max` later ones, or all if there are
/// fewer.
proof fn lemma_count_latest(
    entries: Seq<EntryModel>,
    member: spec_fn(int) -> bool,
    n: int,
    max: nat,
)
    ensures
        count_where(latest_members(entries, member, n, max), n) == if count_where(member, n)
            <= max {
            count_where(member, n)
        } else {
            max
        },
    decreases max,
{
    let chosen = latest_members(entries, member, n, max);
    if max == 0 {
        lemma_count_none(chosen, n);
    } else if count_where(member, n) == 0 {
        assert forall|j: int| 0 <= j < n implies !#[trigger] chosen(j) by {
            if member(j) {
                lemma_count_positive(member, j, n);
            }
        }
        lemma_count_none(chosen, n);
    } else {
        let x = lemma_latest_member(entries, member, n);
        let others = |j: int| member(j) && j != x;
        lemma_count_one_more(others, member, x, n);
        let fewer = latest_members(entries, others, n, (max - 1) as nat);
        lemma_count_latest(entries, others, n, (max - 1) as nat);
        assert(chosen(x)) by {
            let none = later_members(entries, member, x);
            assert forall|j: int| 0 <= j < n implies !#[trigger] none(j) by {
                if member(j) && j != x {
                    assert(later(entries, x, j));
                }
            }
            lemma_count_none(none, n);
        }
        assert forall|i: int| 0 <= i < n && i != x implies #[trigger] fewer(i) == chosen(i) by {
            if member(i) {
                let a = later_members(entries, others, i);
                let b = later_members(entries, member, i);
                assert(later(entries, x, i));
                lemma_count_one_more(a, b, x, n);
            }
        }
        lemma_count_one_more(fewer, chosen, x, n);
    }
}

/// How many rows are accepted is how many positions hold such a row.
proof fn lemma_filter_positions(
    entries: Seq<EntryModel>,
    pred: spec_fn(EntryModel) -> bool,
    at: spec_fn(int) -> bool,
)
    requires
        forall|j: int| 0 <= j < entries.len() ==> #[trigger] at(j) == pred(entries[j]),
    ensures
        entries.filter(pred).len() == count_where(at, entries.len() as int),
    decreases entries.len(),
{
    reveal(Seq::filter);
    if entries.len() > 0 {
        let head = entries.drop_last();
        assert forall|j: int| 0 <= j < head.len() implies #[trigger] at(j) == pred(head[j]) by {
            assert(head[j] == entries[j]);
        }
        lemma_filter_positions(head, pred, at);
        assert(at(entries.len() - 1) == pred(entries[entries.len() - 1]));
    }
}

/// How many rows are kept and accepted is how many positions hold such a row.
proof fn lemma_kept_positions(
    entries: Seq<EntryModel>,
    flags: Seq<bool>,
    pred: spec_fn(EntryModel) -> bool,
    at: spec_fn(int) -> bool,
)
    requires
        entries.len() <= flags.len(),
        forall|j: int|
            0 <= j < entries.len() ==> #[trigger] at(j) == (flags[j] && pred(entries[j])),
    ensures
        kept(entries, flags).filter(pred).len() == count_where(at, entries.len() as int),
    decreases entries.len(),
{
    reveal(Seq::filter);
    if entries.len() > 0 {
        let head = entries.drop_last();
        assert forall|j: int| 0 <= j < head.len() implies #[trigger] at(j) == (flags[j] && pred(
            head[j],
        )) by {
            assert(head[j] == entries[j]);
        }
        lemma_kept_positions(head, flags, pred, at);
        let before = kept(head, flags);
        assert(at(entries.len() - 1) == (flags[entries.len() - 1] && pred(
            entries[entries.len() - 1],
        )));
        assert(before.push(entries.last()).drop_last() =~= before);
    }
}

/// Each bucket is left with as many entries as `max` allows, or with all that are
/// not past their age, if those are fewer.
pub proof fn law_prune_limits_buckets(
    entries: Seq<EntryModel>,
    cutoff: u64,
    max: nat,
    theme: Seq<char>,
    session: Option<Seq<char>>,
)
    ensures
        ({
            let fresh = entries.filter(fresh_in_bucket(theme, session, cutoff)).len();
            pruned_entries(entries, cutoff, max).filter(in_bucket(theme, session)).len() == if fresh
                <= max {
                fresh
            } else {
                max
            }
        }),
{
    let n = entries.len() as int;
    let member = |j: int| fresh_in_bucket(theme, session, cutoff)(entries[j]);
    let flags = staying(entries, cutoff, max);
    let chosen = latest_members(entries, member, n, max);
    lemma_filter_positions(entries, fresh_in_bucket(theme, session, cutoff), member);
    lemma_count_latest(entries, member, n, max);
    assert forall|i: int| 0 <= i < n implies #[trigger] chosen(i) == (flags[i] && in_bucket(
        theme,
        session,
    )(entries[i])) by {
        if in_bucket(theme, session)(entries[i]) && !too_old(entries[i], cutoff) {
            lemma_count_same(
                later_members(entries, member, i),
                rivals(entries, cutoff, i),
                n,
            );
        }
    }
    lemma_kept_positions(entries, flags, in_bucket(theme, session), chosen);
}

/// After pruning, no entry is left that is global and whose time is a number less than
/// the cutoff, and nothing is there that was not there before.
pub proof fn law_prune_leaves_nothing_old(
    entries: Seq<EntryModel>,
    cutoff: u64,
    max: nat,
    e: EntryModel,
)
    requires
        pruned_entries(entries, cutoff, max).contains(e),
    ensures
        entries.contains(e),
        !(e.session_id is None && !double_is_nan(e.stored_at) && !double_is_nan(cutoff)
            && double_key(e.stored_at) < double_key(cutoff)),
{
    let flags = staying(entries, cutoff, max);
    lemma_kept_has(entries, flags, e);
    lemma_kept_flagged(entries, flags, e);
}

/// A row that is kept stands at a position whose flag is set.
proof fn lemma_kept_flagged(entries: Seq<EntryModel>, flags: Seq<bool>, e: EntryModel)
    requires
        entries.len() <= flags.len(),
        kept(entries, flags).contains(e),
    ensures
        exists|i: int| 0 <= i < entries.len() && #[trigger] flags[i] && entries[i] == e,
    decreases entries.len(),
{
    if entries.len() > 0 {
        let head = entries.drop_last();
        let before = kept(head, flags);
        let all = kept(entries, flags);
        let k = choose|k: int| 0 <= k < all.len() && all[k] == e;
        if k < before.len() {
            assert(before[k] == e);
            lemma_kept_flagged(head, flags, e);
            let i = choose|i: int| 0 <= i < head.len() && #[trigger] flags[i] && head[i] == e;
            assert(entries[i] == e);
        } else {
            assert(flags[entries.len() - 1]);
        }
    }
}

/// Entries of a session are not pruned for their age: whether one stays does not
/// depend on the cutoff, and it stays if no more entries than allowed share its theme
/// and its session.
pub proof fn law_prune_spares_sessions(
    entries: Seq<EntryModel>,
    cutoff: u64,
    other_cutoff: u64,
    max: nat,
    i: int,
)
    requires
        0 <= i < entries.len(),
        entries[i].session_id is Some,
    ensures
        staying(entries, cutoff, max)[i] == staying(entries, other_cutoff, max)[i],
        entries.filter(
            |e: EntryModel|
                e.theme == entries[i].theme && e.session_id == entries[i].session_id,
        ).len() <= max ==> staying(entries, cutoff, max)[i],
{
    let n = entries.len() as int;
    lemma_count_same(rivals(entries, cutoff, i), rivals(entries, other_cutoff, i), n);
    lemma_filter_same(
        entries,
        |e: EntryModel| e.theme == entries[i].theme && e.session_id == entries[i].session_id,
        in_bucket(entries[i].theme, entries[i].session_id),
    );
    if entries.filter(in_bucket(entries[i].theme, entries[i].session_id)).len() <= max {
        lemma_stays_within_limit(entries, cutoff, max, i);
    }
}

/// Where identifiers are unique, what is left are the entries that stay.
pub proof fn law_prune_leaves_what_stays(
    entries: Seq<EntryModel>,
    cutoff: u64,
    max: nat,
    i: int,
)
    requires
        unique_entries(entries),
        0 <= i < entries.len(),
    ensures
        pruned_entries(entries, cutoff, max).contains(entries[i]) == staying(
            entries,
            cutoff,
            max,
        )[i],
{
    lemma_left_exactly(entries, staying(entries, cutoff, max), i);
}

proof fn lemma_prune_removes_oldest(
    entries: Seq<EntryModel>,
    cutoff: u64,
    max: nat,
    gone: int,
    left: int,
)
    requires
        0 <= gone < entries.len(),
        0 <= left < entries.len(),
        same_bucket(entries[gone], entries[left]),
        !too_old(entries[gone], cutoff),
        !stays(entries, cutoff, max, gone),
        stays(entries, cutoff, max, left),
    ensures
        later(entries, left, gone),
{
    if !later(entries, left, gone) {
        assert(later(entries, gone, left));
        let n = entries.len() as int;
        let a = rivals(entries, cutoff, gone);
        let b = rivals(entries, cutoff, left);
        lemma_count_within(a, b, n);
    }
}

/// Of the entries that share a theme and a session, the oldest go: one that goes though
/// it is not past its age was stored before each that stays, or at the same instant
/// and added before.
pub proof fn law_prune_removes_oldest(
    entries: Seq<EntryModel>,
    cutoff: u64,
    max: nat,
    gone: int,
    left: int,
)
    requires
        0 <= gone < entries.len(),
        0 <= left < entries.len(),
        entries[gone].theme == entries[left].theme,
        entries[gone].session_id == entries[left].session_id,
        entries[gone].session_id is Some || double_is_nan(entries[gone].stored_at)
            || double_is_nan(cutoff) || double_key(entries[gone].stored_at) >= double_key(cutoff),
        !staying(entries, cutoff, max)[gone],
        staying(entries, cutoff, max)[left],
    ensures
        double_key(entries[gone].stored_at) < double_key(entries[left].stored_at) || (double_key(
            entries[gone].stored_at,
        ) == double_key(entries[left].stored_at) && gone < left),
{
    lemma_prune_removes_oldest(entries, cutoff, max, gone, left);
}

/// Pruning leaves sessions and mementos as they are. Where an entry goes, the index is
/// built anew from those that are left; where none does, it stays as it is.
pub proof fn law_prune_touches_entries_alone(store: StoreModel, cutoff: u64, max: nat)
    ensures
        pruned_store(store, cutoff, max).entries == pruned_entries(store.entries, cutoff, max),
        pruned_store(store, cutoff, max).sessions == store.sessions,
        pruned_store(store, cutoff, max).mementos == store.mementos,
        pruned_store(store, cutoff, max).storage_path == store.storage_path,
        pruned_store(store, cutoff, max).entries == store.entries ==> pruned_store(
            store,
            cutoff,
            max,
        ).index == store.index,
        pruned_store(store, cutoff, max).entries != store.entries ==> pruned_store(
            store,
            cutoff,
            max,
        ).index == loaded_index(pruned_entries(store.entries, cutoff, max)),
{
    lemma_kept_whole(store.entries, staying(store.entries, cutoff, max));
}

/// An entry that is not past its age stays if its bucket is within its limit.
proof fn lemma_stays_within_limit(entries: Seq<EntryModel>, cutoff: u64, max: nat, i: int)
    requires
        0 <= i < entries.len(),
        !too_old(entries[i], cutoff),
        entries.filter(in_bucket(entries[i].theme, entries[i].session_id)).len() <= max,
    ensures
        stays(entries, cutoff, max, i),
{
    let n = entries.len() as int;
    let theme = entries[i].theme;
    let session = entries[i].session_id;
    let member = |j: int| in_bucket(theme, session)(entries[j]);
    lemma_filter_positions(entries, in_bucket(theme, session), member);
    let others = |j: int| member(j) && j != i;
    lemma_count_one_more(others, member, i, n);
    lemma_count_within(rivals(entries, cutoff, i), others, n);
}

/// A row whose flag is set is kept.
proof fn lemma_flagged_kept(entries: Seq<EntryModel>, flags: Seq<bool>, i: int)
    requires
        0 <= i < entries.len() <= flags.len(),
        flags[i],
    ensures
        kept(entries, flags).contains(entries[i]),
    decreases entries.len(),
{
    let head = entries.drop_last();
    let before = kept(head, flags);
    let all = kept(entries, flags);
    if i < head.len() {
        lemma_flagged_kept(head, flags, i);
        let k = choose|k: int| 0 <= k < before.len() && before[k] == head[i];
        assert(all[k] == entries[i]);
    } else {
        assert(all[before.len() as int] == entries[i]);
    }
}

/// Where identifiers are unique, an entry is left exactly if its flag is set.
proof fn lemma_left_exactly(entries: Seq<EntryModel>, flags: Seq<bool>, i: int)
    requires
        unique_entries(entries),
        0 <= i < entries.len() <= flags.len(),
    ensures
        kept(entries, flags).contains(entries[i]) == flags[i],
{
    if flags[i] {
        lemma_flagged_kept(entries, flags, i);
    } else if kept(entries, flags).contains(entries[i]) {
        lemma_kept_flagged(entries, flags, entries[i]);
        let k = choose|k: int|
            0 <= k < entries.len() && #[trigger] flags[k] && entries[k] == entries[i];
        if k < i {
            assert(id_of_entry()(entries[k]) != id_of_entry()(entries[i]));
        } else if i < k {
            assert(id_of_entry()(entries[i]) != id_of_entry()(entries[k]));
        }
    }
}

/// An entry stays if it belongs to a session, or its time is no number less than the
/// cutoff, and no more entries than allowed share its theme and its session.
pub proof fn law_prune_keeps(entries: Seq<EntryModel>, cutoff: u64, max: nat, i: int)
    requires
        0 <= i < entries.len(),
        !(entries[i].session_id is None && !double_is_nan(entries[i].stored_at)
            && !double_is_nan(cutoff) && double_key(entries[i].stored_at) < double_key(cutoff)),
        entries.filter(
            |e: EntryModel|
                e.theme == entries[i].theme && e.session_id == entries[i].session_id,
        ).len() <= max,
    ensures
        pruned_entries(entries, cutoff, max).contains(entries[i]),
{
    lemma_filter_same(
        entries,
        |e: EntryModel| e.theme == entries[i].theme && e.session_id == entries[i].session_id,
        in_bucket(entries[i].theme, entries[i].session_id),
    );
    assert(!too_old(entries[i], cutoff));
    lemma_stays_within_limit(entries, cutoff, max, i);
    lemma_flagged_kept(entries, staying(entries, cutoff, max), i);
}

/// What is left stands in the order in which it stood.
pub proof fn law_prune_keeps_order(
    entries: Seq<EntryModel>,
    cutoff: u64,
    max: nat,
    a: int,
    b: int,
)
    requires
        0 <= a < b < pruned_entries(entries, cutoff, max).len(),
    ensures
        ({
            let left = pruned_entries(entries, cutoff, max);
            exists|i: int, j: int|
                0 <= i < j < entries.len() && #[trigger] entries[i] == left[a]
                    && #[trigger] entries[j] == left[b]
        }),
{
    lemma_kept_order(entries, staying(entries, cutoff, max), a, b);
}

proof fn lemma_kept_order(entries: Seq<EntryModel>, flags: Seq<bool>, a: int, b: int)
    requires
        0 <= a < b < kept(entries, flags).len(),
    ensures
        exists|i: int, j: int|
            0 <= i < j < entries.len() && #[trigger] entries[i] == kept(entries, flags)[a]
                && #[trigger] entries[j] == kept(entries, flags)[b],
    decreases entries.len(),
{
    let head = entries.drop_last();
    let before = kept(head, flags);
    let all = kept(entries, flags);
    if b < before.len() {
        lemma_kept_order(head, flags, a, b);
        let (i, j) = choose|i: int, j: int|
            0 <= i < j < head.len() && #[trigger] head[i] == before[a] && #[trigger] head[j]
                == before[b];
        assert(entries[i] == all[a] && entries[j] == all[b]);
    } else {
        assert(before.contains(before[a]));
        lemma_kept_has(head, flags, before[a]);
        let i = choose|i: int| 0 <= i < head.len() && head[i] == before[a];
        assert(entries[i] == all[a] && entries[entries.len() - 1] == all[b]);
    }
}

proof fn lemma_kept_true(entries: Seq<EntryModel>, flags: Seq<bool>)
    requires
        forall|i: int| 0 <= i < flags.len() ==> #[trigger] flags[i],
    ensures
        kept(entries, flags) == entries,
    decreases entries.len(),
{
    if entries.len() > 0 {
        lemma_kept_true(entries.drop_last(), flags);
        assert(entries =~= entries.drop_last().push(entries.last()));
        if entries.len() <= flags.len() {
            assert(flags[entries.len() - 1]);
        }
    }
}

/// Pruning takes nothing away where no global entry was stored before the cutoff and no
/// bucket is over its limit.
pub proof fn law_prune_leaves_what_is_allowed(store: StoreModel, cutoff: u64, max: nat)
    requires
        forall|i: int|
            0 <= i < store.entries.len() ==> {
                let e = #[trigger] store.entries[i];
                e.session_id is Some || double_is_nan(e.stored_at) || double_is_nan(cutoff)
                    || double_key(e.stored_at) >= double_key(cutoff)
            },
        forall|i: int|
            0 <= i < store.entries.len() ==> store.entries.filter(
                in_bucket((#[trigger] store.entries[i]).theme, store.entries[i].session_id),
            ).len() <= max,
    ensures
        pruned_store(store, cutoff, max) == store,
{
    let entries = store.entries;
    let flags = staying(entries, cutoff, max);
    assert forall|i: int| 0 <= i < flags.len() implies #[trigger] flags[i] by {
        let theme = entries[i].theme;
        let session = entries[i].session_id;
        assert(entries.filter(in_bucket(theme, session)).len() <= max);
        assert(!too_old(entries[i], cutoff));
        lemma_stays_within_limit(entries, cutoff, max, i);
    }
    lemma_kept_true(entries, flags);
}

/// Pruning again, with the same cutoff and limit, changes nothing.
pub proof fn law_prune_twice(store: StoreModel, cutoff: u64, max: nat)
    ensures
        pruned_store(pruned_store(store, cutoff, max), cutoff, max) == pruned_store(
            store,
            cutoff,
            max,
        ),
{
    let once = pruned_store(store, cutoff, max);
    assert forall|i: int| 0 <= i < once.entries.len() implies {
        let e = #[trigger] once.entries[i];
        e.session_id is Some || double_is_nan(e.stored_at) || double_is_nan(cutoff) || double_key(
            e.stored_at,
        ) >= double_key(cutoff)
    } by {
        assert(once.entries.contains(once.entries[i]));
        law_prune_leaves_nothing_old(store.entries, cutoff, max, once.entries[i]);
    }
    assert forall|i: int| 0 <= i < once.entries.len() implies once.entries.filter(
        in_bucket((#[trigger] once.entries[i]).theme, once.entries[i].session_id),
    ).len() <= max by {
        law_prune_limits_buckets(
            store.entries,
            cutoff,
            max,
            once.entries[i].theme,
            once.entries[i].session_id,
        );
    }
    law_prune_leaves_what_is_allowed(once, cutoff, max);
}

/// The entries that stay.
spec fn left_in(entries: Seq<EntryModel>, cutoff: u64, max: nat) -> spec_fn(EntryModel) -> bool {
    |e: EntryModel|
        exists|i: int|
            0 <= i < entries.len() && #[trigger] stays(entries, cutoff, max, i) && entries[i] == e
}

/// Where identifiers are unique, an entry stays exactly if it stays at its place.
proof fn lemma_left_at(entries: Seq<EntryModel>, cutoff: u64, max: nat, i: int)
    requires
        unique_entries(entries),
        0 <= i < entries.len(),
    ensures
        left_in(entries, cutoff, max)(entries[i]) == stays(entries, cutoff, max, i),
{
    if left_in(entries, cutoff, max)(entries[i]) {
        let k = choose|k: int|
            0 <= k < entries.len() && #[trigger] stays(entries, cutoff, max, k) && entries[k]
                == entries[i];
        if k < i {
            assert(id_of_entry()(entries[k]) != id_of_entry()(entries[i]));
        } else if i < k {
            assert(id_of_entry()(entries[i]) != id_of_entry()(entries[k]));
        }
    }
}

/// In a bucket of a session, with an entry that stays all later ones stay.
proof fn lemma_later_stays(
    entries: Seq<EntryModel>,
    cutoff: u64,
    max: nat,
    theme: Seq<char>,
    session: Seq<char>,
    k: int,
    l: int,
)
    requires
        unique_entries(entries),
        0 <= k < l < ranked::<Entry>(entries.filter(recall_matches(theme, Some(session)))).len(),
        left_in(entries, cutoff, max)(
            ranked::<Entry>(entries.filter(recall_matches(theme, Some(session))))[k],
        ),
    ensures
        left_in(entries, cutoff, max)(
            ranked::<Entry>(entries.filter(recall_matches(theme, Some(session))))[l],
        ),
{
    let pred = recall_matches(theme, Some(session));
    let own = entries.filter(pred);
    let order = ranked::<Entry>(own);
    let a = order[k];
    let b = order[l];
    assert(order.contains(a));
    assert(order.contains(b));
    lemma_ranked_contains::<Entry>(own, a);
    lemma_ranked_contains::<Entry>(own, b);
    lemma_filter_has(entries, pred, a);
    lemma_filter_has(entries, pred, b);
    lemma_ranked_in_order::<Entry>(own);
    assert(Entry::precedes(a, b));
    lemma_ranked_pair::<Entry>(own, k, l);
    let (i, j): (int, int) = if stands_before(own, a, b) {
        lemma_filter_order(entries, pred, a, b);
        choose|i: int, j: int|
            0 <= i < j < entries.len() && #[trigger] entries[i] == a && #[trigger] entries[j] == b
    } else {
        (
            choose|i: int| 0 <= i < entries.len() && entries[i] == a,
            choose|j: int| 0 <= j < entries.len() && entries[j] == b,
        )
    };
    assert(later(entries, j, i));
    lemma_left_at(entries, cutoff, max, i);
    lemma_left_at(entries, cutoff, max, j);
    if !stays(entries, cutoff, max, j) {
        lemma_prune_removes_oldest(entries, cutoff, max, j, i);
    }
}

/// What a session recalls is not changed by pruning, as long as it asks for no
/// more entries than pruning leaves in a bucket.
pub proof fn law_prune_then_recall(
    entries: Seq<EntryModel>,
    cutoff: u64,
    max: nat,
    theme: Seq<char>,
    session: Seq<char>,
    limit: nat,
)
    requires
        unique_entries(entries),
        limit <= max,
    ensures
        latest_entries(pruned_entries(entries, cutoff, max), theme, Some(session), limit)
            == latest_entries(entries, theme, Some(session), limit),
{
    let pred = recall_matches(theme, Some(session));
    let left = left_in(entries, cutoff, max);
    let own = entries.filter(pred);
    let order = ranked::<Entry>(own);
    let pruned = pruned_entries(entries, cutoff, max);
    let flags = staying(entries, cutoff, max);
    assert forall|i: int| 0 <= i < entries.len() implies #[trigger] flags[i] == left(
        entries[i],
    ) by {
        lemma_left_at(entries, cutoff, max, i);
    }
    lemma_kept_is_filter(entries, flags, left);
    let both = |e: EntryModel| left(e) && pred(e);
    lemma_filter_twice(entries, left, pred, both);
    lemma_filter_twice(entries, pred, left, both);
    lemma_ranked_filter::<Entry>(own, left);
    assert forall|k: int, l: int| 0 <= k < l < order.len() && left(
        #[trigger] order[k],
    ) implies left(#[trigger] order[l]) by {
        lemma_later_stays(entries, cutoff, max, theme, session, k, l);
    }
    lemma_filter_last(order, left);
    law_prune_limits_buckets(entries, cutoff, max, theme, Some(session));
    lemma_filter_same(entries, pred, fresh_in_bucket(theme, Some(session), cutoff));
    lemma_filter_same(pruned, pred, in_bucket(theme, Some(session)));
    lemma_ranked_same_rows::<Entry>(own);
    lemma_ranked_same_rows::<Entry>(pruned.filter(pred));
    assert(latest_entries(pruned, theme, Some(session), limit) =~= latest_entries(
        entries,
        theme,
        Some(session),
        limit,
    ));
}

/// Where pruning stops after its first part, no entry is left that is global and whose
/// time is a number less than the cutoff.
pub proof fn law_prune_removes_aged_first(
    entries: Seq<EntryModel>,
    cutoff: u64,
    max: nat,
    plan: PlanModel,
    done: usize,
    e: EntryModel,
)
    requires
        plan.keep == staying(entries, cutoff, max),
        plan.parts == Some(prune_parts(entries, cutoff)),
        done > 0,
        kept(entries, left_after(plan, done)).contains(e),
    ensures
        !(e.session_id is None && !double_is_nan(e.stored_at) && !double_is_nan(cutoff)
            && double_key(e.stored_at) < double_key(cutoff)),
{
    lemma_kept_flagged(entries, left_after(plan, done), e);
}

/// The start of a bucket is its first entry that is not past its age.
proof fn lemma_bucket_start(entries: Seq<EntryModel>, cutoff: u64, i: int, j: int)
    requires
        0 <= j <= i < entries.len(),
        !too_old(entries[i], cutoff),
    ensures
        ({
            let start = bucket_start(entries, cutoff, i, j);
            &&& j <= start <= i
            &&& !too_old(entries[start], cutoff)
            &&& same_bucket(entries[start], entries[i])
            &&& forall|k: int|
                j <= k < start ==> too_old(#[trigger] entries[k], cutoff) || !same_bucket(
                    entries[k],
                    entries[i],
                )
        }),
    decreases i - j,
{
    if !(j >= i || (!too_old(entries[j], cutoff) && same_bucket(entries[j], entries[i]))) {
        lemma_bucket_start(entries, cutoff, i, j + 1);
    }
}

/// The number of the part of an entry that is not past its age is not that of the first
/// part, as long as positions are machine numbers.
pub(crate) proof fn lemma_part_number(entries: Seq<EntryModel>, cutoff: u64, i: int)
    requires
        0 <= i < entries.len(),
    ensures
        too_old(entries[i], cutoff) ==> prune_parts(entries, cutoff)[i] == 0,
        !too_old(entries[i], cutoff) && entries.len() <= usize::MAX ==> prune_parts(
            entries,
            cutoff,
        )[i] > 0,
{
    if !too_old(entries[i], cutoff) {
        lemma_bucket_start(entries, cutoff, i, 0);
    }
}

/// Pruning never stops within a bucket: of two entries that are to go, though they are
/// not past their age, and that share their theme and their session, both have gone or
/// neither.
pub proof fn law_prune_stops_between_buckets(
    entries: Seq<EntryModel>,
    cutoff: u64,
    max: nat,
    plan: PlanModel,
    done: usize,
    a: int,
    b: int,
)
    requires
        unique_entries(entries),
        entries.len() <= usize::MAX,
        plan.keep == staying(entries, cutoff, max),
        plan.parts == Some(prune_parts(entries, cutoff)),
        0 <= a < entries.len(),
        0 <= b < entries.len(),
        entries[a].theme == entries[b].theme,
        entries[a].session_id == entries[b].session_id,
        entries[a].session_id is Some || double_is_nan(entries[a].stored_at) || double_is_nan(
            cutoff,
        ) || double_key(entries[a].stored_at) >= double_key(cutoff),
        entries[b].session_id is Some || double_is_nan(entries[b].stored_at) || double_is_nan(
            cutoff,
        ) || double_key(entries[b].stored_at) >= double_key(cutoff),
        !pruned_entries(entries, cutoff, max).contains(entries[a]),
        !pruned_entries(entries, cutoff, max).contains(entries[b]),
    ensures
        kept(entries, left_after(plan, done)).contains(entries[a]) == kept(
            entries,
            left_after(plan, done),
        ).contains(entries[b]),
        done == 0 ==> kept(entries, left_after(plan, done)).contains(entries[a]),
        done == 1 ==> kept(entries, left_after(plan, done)).contains(entries[a]),
{
    let left = left_after(plan, done);
    lemma_left_exactly(entries, staying(entries, cutoff, max), a);
    lemma_left_exactly(entries, staying(entries, cutoff, max), b);
    lemma_left_exactly(entries, left, a);
    lemma_left_exactly(entries, left, b);
    lemma_bucket_start(entries, cutoff, a, 0);
    lemma_bucket_start(entries, cutoff, b, 0);
    let x = bucket_start(entries, cutoff, a, 0);
    let y = bucket_start(entries, cutoff, b, 0);
    if x < y {
        assert(too_old(entries[x], cutoff) || !same_bucket(entries[x], entries[b]));
    } else if y < x {
        assert(too_old(entries[y], cutoff) || !same_bucket(entries[y], entries[a]));
    }
}

} // verus!
