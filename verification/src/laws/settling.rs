//! Laws of plans: what a plan leaves of the rows and of the index, and what of it takes
//! effect however the attempt to write it went.

use crate::codec::decoded;
use crate::index::{not_active, of_other_sessions, of_other_themes, IndexModel};
use crate::laws::consistency::{index_all, mirrors};
use crate::numbers::double_key;
use crate::rows::{
    kept, last_rows, lemma_filter_same, lemma_ranked_in_order, lemma_ranked_pair,
    lemma_ranked_same_rows, ranked, Ranked,
};
use crate::store::{
    applied, counts_message, in_parts, index_of, left_after, loaded_index, other_than, possible,
    settled, IndexChangeModel, Outcome, PlanModel, SessionChangeModel, StoreModel,
};
use crate::tables::{Entry, EntryModel, SessionModel};
use crate::writing::message_counted;
use vstd::prelude::*;

verus! {

/// Rows are kept one by one, in their order: a row behind the others is kept unless it
/// has a flag that is not set.
pub proof fn law_kept_one_more<V>(rows: Seq<V>, row: V, flags: Seq<bool>)
    ensures
        kept(Seq::<V>::empty(), flags).len() == 0,
        kept(rows.push(row), flags) == if rows.len() < flags.len() && !flags[rows.len() as int] {
            kept(rows, flags)
        } else {
            kept(rows, flags).push(row)
        },
{
    assert(rows.push(row).drop_last() =~= rows);
}

/// The last rows are as many as asked for, or all, and none stands behind them.
pub proof fn law_last_rows<V>(rows: Seq<V>, count: nat)
    ensures
        last_rows(rows, count).len() == if rows.len() <= count {
            rows.len()
        } else {
            count
        },
        forall|i: int|
            0 <= i < last_rows(rows, count).len() ==> #[trigger] last_rows(rows, count)[i]
                == rows[rows.len() - last_rows(rows, count).len() + i],
{
}

/// The index keeps of an entry its identifier, its theme, its session, and the vector
/// that its bytes hold.
pub proof fn law_index_of(e: EntryModel)
    ensures
        index_of(e).id == e.id,
        index_of(e).theme == e.theme,
        index_of(e).session_id == e.session_id,
        index_of(e).vector == decoded(e.vector),
{
}

/// Where the index mirrors the entries, it has as many, and one for each of them: with
/// its identifier, its theme, its session and the vector that its bytes hold.
pub proof fn law_mirrored_index(store: StoreModel, k: int)
    requires
        mirrors(store),
        0 <= k < store.entries.len(),
    ensures
        store.index.len() == store.entries.len(),
        exists|i: int|
            {
                &&& 0 <= i < store.index.len()
                &&& (#[trigger] store.index[i]).id == store.entries[k].id
                &&& store.index[i].theme == store.entries[k].theme
                &&& store.index[i].session_id == store.entries[k].session_id
                &&& store.index[i].vector == decoded(store.entries[k].vector)
            },
{
    broadcast use vstd::seq_lib::group_to_multiset_ensures;

    let all = index_all(store.entries);
    assert(all.len() == all.to_multiset().len());
    assert(store.index.len() == store.index.to_multiset().len());
    let x = index_of(store.entries[k]);
    assert(all[k] == x);
    assert(all.contains(x));
    assert(all.to_multiset().count(x) > 0);
    assert(store.index.contains(x));
    let i = choose|i: int| 0 <= i < store.index.len() && store.index[i] == x;
    assert(store.index[i].id == store.entries[k].id);
}

/// The index that is built from entries has all of them, in the order of their times,
/// and of entries stored at the same instant in the order in which they were added; of
/// each it has the identifier, the theme, the session, and the vector that its bytes
/// hold.
pub proof fn law_loaded_index(entries: Seq<EntryModel>)
    ensures
        exists|order: Seq<EntryModel>|
            {
                &&& #[trigger] order.to_multiset() == entries.to_multiset()
                &&& order.len() == entries.len()
                &&& forall|i: int, j: int|
                    0 <= i < j < order.len() ==> {
                        ||| double_key((#[trigger] order[i]).stored_at) < double_key(
                            (#[trigger] order[j]).stored_at,
                        )
                        ||| double_key(order[i].stored_at) == double_key(order[j].stored_at) && (
                        exists|k: int, l: int|
                            0 <= k < l < entries.len() && #[trigger] entries[k] == order[i]
                                && #[trigger] entries[l] == order[j])
                    }
                &&& loaded_index(entries).len() == order.len()
                &&& forall|i: int|
                    0 <= i < order.len() ==> {
                        &&& (#[trigger] loaded_index(entries)[i]).id == order[i].id
                        &&& loaded_index(entries)[i].theme == order[i].theme
                        &&& loaded_index(entries)[i].session_id == order[i].session_id
                        &&& loaded_index(entries)[i].vector == decoded(order[i].vector)
                    }
            },
{
    let order = ranked::<Entry>(entries);
    lemma_ranked_same_rows::<Entry>(entries);
    lemma_ranked_in_order::<Entry>(entries);
    assert forall|i: int, j: int| 0 <= i < j < order.len() implies {
        ||| double_key((#[trigger] order[i]).stored_at) < double_key(
            (#[trigger] order[j]).stored_at,
        )
        ||| double_key(order[i].stored_at) == double_key(order[j].stored_at) && (exists|
            k: int,
            l: int,
        |
            0 <= k < l < entries.len() && #[trigger] entries[k] == order[i]
                && #[trigger] entries[l] == order[j])
    } by {
        assert(Entry::precedes(order[i], order[j]));
        lemma_ranked_pair::<Entry>(entries, i, j);
    }
    assert(order.to_multiset() == entries.to_multiset());
}

/// A plan that takes effect leaves the entries that it keeps, with the entry that it adds
/// behind them, and adds its mementos behind those that there were.
pub proof fn law_applied_rows(store: StoreModel, plan: PlanModel)
    ensures
        ({
            let after = applied(store, plan);
            &&& after.mementos == store.mementos + plan.archive
            &&& after.storage_path == store.storage_path
            &&& plan.add is None ==> after.entries == kept(store.entries, plan.keep)
            &&& plan.add is Some ==> after.entries == kept(store.entries, plan.keep).push(
                plan.add->0,
            )
        }),
{
}

/// What a plan does to the sessions: it leaves them, adds one behind them, removes those
/// with an identifier, or edits those with an identifier, each in its place.
pub proof fn law_applied_sessions(store: StoreModel, plan: PlanModel)
    ensures
        ({
            let before = store.sessions;
            let after = applied(store, plan).sessions;
            match plan.session {
                SessionChangeModel::Keep => after == before,
                SessionChangeModel::Insert(s) => after == before + seq![s],
                SessionChangeModel::Remove(id) => after == before.filter(
                    |s: SessionModel| s.id != id,
                ),
                SessionChangeModel::Edit(edit) => {
                    &&& after.len() == before.len()
                    &&& forall|i: int|
                        0 <= i < before.len() ==> {
                            let s = before[i];
                            let t = #[trigger] after[i];
                            &&& t.id == s.id
                            &&& t.created_at == s.created_at
                            &&& s.id != edit.id ==> t == s
                            &&& s.id == edit.id ==> {
                                &&& t.updated_at == edit.updated_at
                                &&& edit.title is Some ==> t.title == edit.title->0
                                &&& edit.title is None ==> t.title == s.title
                                &&& edit.rolling_summary is Some ==> t.rolling_summary
                                    == edit.rolling_summary->0
                                &&& edit.rolling_summary is None ==> t.rolling_summary
                                    == s.rolling_summary
                                &&& edit.count_message && s.message_count < 0x7fff_ffff_ffff_ffff
                                    ==> t.message_count == s.message_count + 1
                                &&& !edit.count_message || s.message_count
                                    == 0x7fff_ffff_ffff_ffff ==> t.message_count
                                    == s.message_count
                            }
                        }
                },
            }
        }),
{
    let after = applied(store, plan).sessions;
    match plan.session {
        SessionChangeModel::Insert(s) => {
            assert(after =~= store.sessions + seq![s]);
        },
        SessionChangeModel::Remove(id) => {
            lemma_filter_same(store.sessions, |s: SessionModel| s.id != id, other_than(id));
        },
        _ => {},
    }
}

/// What a plan does to the index: it leaves it, adds the entry that it adds, removes the
/// entries of a theme, of a session, or of a theme within a session, or builds it anew
/// from the entries that there are then.
pub proof fn law_applied_index(store: StoreModel, plan: PlanModel)
    ensures
        ({
            let before = store.index;
            let after = applied(store, plan).index;
            let added = match plan.add {
                Some(e) => seq![index_of(e)],
                None => Seq::empty(),
            };
            match plan.index {
                IndexChangeModel::Keep => after == before,
                IndexChangeModel::Push => after == before + added,
                IndexChangeModel::RemoveTheme(theme) => after == before.filter(
                    |e: IndexModel| e.theme != theme,
                ),
                IndexChangeModel::ReplaceActive(theme, session) => after == before.filter(
                    |e: IndexModel| e.theme != theme || e.session_id != session,
                ) + added,
                IndexChangeModel::RemoveSession(id) => after == before.filter(
                    |e: IndexModel| e.session_id != Some(id),
                ),
                IndexChangeModel::Rebuild => after == loaded_index(applied(store, plan).entries),
            }
        }),
{
    let before = store.index;
    let after = applied(store, plan).index;
    let added = match plan.add {
        Some(e) => seq![index_of(e)],
        None => Seq::empty(),
    };
    match plan.index {
        IndexChangeModel::Push => {
            assert(after =~= before + added);
        },
        IndexChangeModel::RemoveTheme(theme) => {
            lemma_filter_same(before, |e: IndexModel| e.theme != theme, of_other_themes(theme));
        },
        IndexChangeModel::ReplaceActive(theme, session) => {
            lemma_filter_same(
                before,
                |e: IndexModel| e.theme != theme || e.session_id != session,
                not_active(theme, session),
            );
            assert(after =~= before.filter(not_active(theme, session)) + added);
        },
        IndexChangeModel::RemoveSession(id) => {
            lemma_filter_same(
                before,
                |e: IndexModel| e.session_id != Some(id),
                of_other_sessions(id),
            );
        },
        _ => {},
    }
}

/// However the attempt to write a plan went: all of it takes effect if all is written;
/// all but the change to the sessions if only that is not; nothing if nothing is. If
/// the writing stopped between parts, an entry has gone exactly if the plan does not
/// keep it and its part was written, and nothing else has changed.
pub proof fn law_settled(store: StoreModel, plan: PlanModel, outcome: Outcome)
    requires
        possible(plan, outcome),
    ensures
        ({
            let after = settled(store, plan, outcome);
            let whole = applied(store, plan);
            match outcome {
                Outcome::Done => after == whole,
                Outcome::SessionNotWritten => {
                    &&& after.entries == whole.entries
                    &&& after.mementos == whole.mementos
                    &&& after.index == whole.index
                    &&& after.sessions == store.sessions
                    &&& after.storage_path == store.storage_path
                },
                Outcome::Failed(_) => after == store,
                Outcome::Stopped(done, _) => {
                    &&& after.sessions == store.sessions
                    &&& after.mementos == store.mementos
                    &&& after.index == store.index
                    &&& after.storage_path == store.storage_path
                    &&& after.entries == kept(
                        store.entries,
                        Seq::new(
                            plan.keep.len(),
                            |i: int| plan.keep[i] || (plan.parts->0)[i] >= done,
                        ),
                    )
                },
            }
        }),
{
    if let Outcome::Stopped(done, _) = outcome {
        assert(left_after(plan, done) =~= Seq::new(
            plan.keep.len(),
            |i: int| plan.keep[i] || (plan.parts->0)[i] >= done,
        ));
    }
}

/// Only a message that was to be counted can stay unwritten while the rest is written,
/// and only a plan that gives a part to each entry can stop between parts.
pub proof fn law_possible(plan: PlanModel, outcome: Outcome)
    ensures
        outcome is Done || outcome is Failed ==> possible(plan, outcome),
        outcome is SessionNotWritten ==> (possible(plan, outcome) <==> plan.session is Edit
            && plan.session->Edit_0.count_message),
        outcome is Stopped ==> (possible(plan, outcome) <==> plan.parts is Some && (
        plan.parts->0).len() == plan.keep.len()),
        counts_message(plan.session) <==> plan.session is Edit
            && plan.session->Edit_0.count_message,
        in_parts(plan) <==> plan.parts is Some && (plan.parts->0).len() == plan.keep.len(),
{
}

/// Storing an entry with a session counts a message for that session, and for no other,
/// and changes its time of the last change; an entry without a session changes none.
pub proof fn law_message_counted(session: Option<Seq<char>>, now: Seq<char>)
    ensures
        session is None ==> message_counted(session, now) is Keep,
        session is Some ==> {
            let change = message_counted(session, now);
            &&& change is Edit
            &&& change->Edit_0.id == session->0
            &&& change->Edit_0.title is None
            &&& change->Edit_0.rolling_summary is None
            &&& change->Edit_0.count_message
            &&& change->Edit_0.updated_at == now
        },
{
}

} // verus!
