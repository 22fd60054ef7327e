//! Laws of sessions.

use crate::index::{of_other_sessions, IndexModel};
use crate::laws::consistency::lemma_session_absent;
use crate::laws::searching::law_windows_join;
use crate::recall::{latest_entries, recall_matches};
use crate::rows::{
    in_order, kept, lemma_filter_all, lemma_filter_has, lemma_filter_none, lemma_filter_same,
    lemma_filter_twice, lemma_kept_is_filter, lemma_ranked_contains, lemma_ranked_in_order,
    lemma_ranked_pair, lemma_ranked_same_rows, ranked, Ranked,
};
use crate::sessions::{
    new_session, not_found, one_part, outside_session, session_id_error, session_page,
    session_summaries, session_update, session_with_id, updated_store, with_session,
    without_session,
};
use crate::store::{
    edited, left_after, other_than, sessions_after, PlanModel, SessionChangeModel,
    SessionEditModel, StoreModel,
};
use crate::tables::{EntryModel, Session, SessionModel};
use crate::text::{lemma_text_le_total, text_le};
use crate::writing::stored_store;
use vstd::prelude::*;

verus! {

/// A session that was created can be got: with its title, or the standing one if
/// none was given, with no messages and no summary. The other sessions are as
/// they were.
pub proof fn law_create_then_get(
    store: StoreModel,
    id: Seq<char>,
    title: Seq<char>,
    now: Seq<char>,
    other: Seq<char>,
)
    requires
        other != id,
    ensures
        ({
            let after = with_session(store, new_session(id, title, now));
            let got = session_with_id(after.sessions, id);
            &&& got is Some
            &&& (got->0).id == id
            &&& title.len() > 0 ==> (got->0).title == title
            &&& title.len() == 0 ==> (got->0).title == "New chat"@
            &&& (got->0).created_at == now
            &&& (got->0).updated_at == now
            &&& (got->0).message_count == 0
            &&& (got->0).rolling_summary.len() == 0
            &&& session_with_id(after.sessions, other) == session_with_id(store.sessions, other)
        }),
{
    let s = new_session(id, title, now);
    assert(store.sessions.push(s).drop_last() =~= store.sessions);
}

proof fn lemma_get_edited(sessions: Seq<SessionModel>, edit: SessionEditModel, id: Seq<char>)
    ensures
        session_with_id(sessions_after(sessions, SessionChangeModel::Edit(edit)), id)
            == match session_with_id(sessions, id) {
            Some(s) => Some(edited(s, edit)),
            None => None,
        },
    decreases sessions.len(),
{
    let after = sessions_after(sessions, SessionChangeModel::Edit(edit));
    if sessions.len() > 0 {
        let head = sessions.drop_last();
        lemma_get_edited(head, edit, id);
        assert(after.drop_last() =~= sessions_after(head, SessionChangeModel::Edit(edit)));
        assert(after.last() == edited(sessions.last(), edit));
    }
}

/// The session got has the identifier asked for.
proof fn lemma_got_id(sessions: Seq<SessionModel>, id: Seq<char>)
    requires
        session_with_id(sessions, id) is Some,
    ensures
        (session_with_id(sessions, id)->0).id == id,
    decreases sessions.len(),
{
    if sessions.last().id != id {
        lemma_got_id(sessions.drop_last(), id);
    }
}

/// After an update a session has the title and the summary given, and those that
/// it had where none was given; it counts as updated, and keeps its message count
/// and the time of its creation. The other sessions are as they were, and no
/// session comes into being.
pub proof fn law_update_then_get(
    store: StoreModel,
    id: Seq<char>,
    title: Option<Seq<char>>,
    rolling_summary: Option<Seq<char>>,
    now: Seq<char>,
    other: Seq<char>,
)
    requires
        other != id,
    ensures
        ({
            let after = updated_store(store, session_update(id, title, rolling_summary, now));
            let got = session_with_id(after.sessions, id);
            &&& match session_with_id(store.sessions, id) {
                Some(s) => got == Some(
                    SessionModel {
                        title: if title is Some {
                            title->0
                        } else {
                            s.title
                        },
                        rolling_summary: if rolling_summary is Some {
                            rolling_summary->0
                        } else {
                            s.rolling_summary
                        },
                        updated_at: now,
                        ..s
                    },
                ),
                None => got is None,
            }
            &&& session_with_id(after.sessions, other) == session_with_id(store.sessions, other)
        }),
{
    let edit = session_update(id, title, rolling_summary, now);
    lemma_get_edited(store.sessions, edit, id);
    lemma_get_edited(store.sessions, edit, other);
    if session_with_id(store.sessions, id) is Some {
        lemma_got_id(store.sessions, id);
    }
    if session_with_id(store.sessions, other) is Some {
        lemma_got_id(store.sessions, other);
    }
}

/// Storing an entry with a session counts one message more for that session, as
/// long as the count can grow, and for no other; a global entry counts for none.
pub proof fn law_store_counts_message(
    store: StoreModel,
    e: EntryModel,
    now: Seq<char>,
    id: Seq<char>,
)
    requires
        session_with_id(store.sessions, id) is Some,
    ensures
        ({
            let before = session_with_id(store.sessions, id)->0;
            let after = session_with_id(stored_store(store, e, now).sessions, id);
            &&& e.session_id == Some(id) ==> after == Some(
                SessionModel {
                    message_count: if before.message_count < i64::MAX {
                        (before.message_count + 1) as i64
                    } else {
                        before.message_count
                    },
                    updated_at: now,
                    ..before
                },
            )
            &&& e.session_id != Some(id) ==> after == Some(before)
        }),
{
    lemma_got_id(store.sessions, id);
    if let Some(sid) = e.session_id {
        let edit = SessionEditModel {
            id: sid,
            title: None,
            rolling_summary: None,
            count_message: true,
            updated_at: now,
        };
        lemma_get_edited(store.sessions, edit, id);
    }
}

proof fn lemma_get_filtered(sessions: Seq<SessionModel>, gone: Seq<char>, id: Seq<char>)
    ensures
        session_with_id(sessions.filter(other_than(gone)), id) == if id == gone {
            None
        } else {
            session_with_id(sessions, id)
        },
    decreases sessions.len(),
{
    reveal(Seq::filter);
    if sessions.len() > 0 {
        let head = sessions.drop_last();
        lemma_get_filtered(head, gone, id);
        let before = head.filter(other_than(gone));
        assert(before.push(sessions.last()).drop_last() =~= before);
    }
}

/// A session that was deleted cannot be got any more, and none of its entries is
/// left, in the tables or in the index. The other sessions are as they were.
pub proof fn law_delete_session_then_get(
    store: StoreModel,
    id: Seq<char>,
    other: Seq<char>,
    theme: Seq<char>,
    limit: nat,
)
    requires
        other != id,
    ensures
        ({
            let after = without_session(store, id);
            &&& session_with_id(after.sessions, id) is None
            &&& session_with_id(after.sessions, other) == session_with_id(store.sessions, other)
            &&& latest_entries(after.entries, theme, Some(id), limit).len() == 0
            &&& forall|i: int|
                0 <= i < after.entries.len() ==> (#[trigger] after.entries[i]).session_id != Some(
                    id,
                )
            &&& forall|i: int|
                0 <= i < after.index.len() ==> (#[trigger] after.index[i]).session_id != Some(id)
        }),
{
    let after = without_session(store, id);
    lemma_get_filtered(store.sessions, id, id);
    lemma_get_filtered(store.sessions, id, other);
    assert forall|i: int| 0 <= i < after.entries.len() implies (
    #[trigger] after.entries[i]).session_id != Some(id) by {
        assert(after.entries.contains(after.entries[i]));
        lemma_filter_has(store.entries, outside_session(id), after.entries[i]);
    }
    assert forall|i: int| 0 <= i < after.index.len() implies (
    #[trigger] after.index[i]).session_id != Some(id) by {
        assert(after.index.contains(after.index[i]));
        lemma_filter_has(store.index, of_other_sessions(id), after.index[i]);
    }
    lemma_filter_none(after.entries, recall_matches(theme, Some(id)));
}

/// Deleting a session leaves all other entries: the global ones and those of other
/// sessions.
pub proof fn law_delete_session_spares_others(
    store: StoreModel,
    id: Seq<char>,
    keep: spec_fn(EntryModel) -> bool,
)
    requires
        forall|e: EntryModel| #[trigger] keep(e) ==> e.session_id != Some(id),
    ensures
        without_session(store, id).entries.filter(keep) == store.entries.filter(keep),
        without_session(store, id).mementos == store.mementos,
{
    let first = outside_session(id);
    let both = |e: EntryModel| first(e) && keep(e);
    lemma_filter_twice(store.entries, first, keep, both);
    lemma_filter_same(store.entries, both, keep);
}

/// What another session recalls is the same after a session was deleted.
pub proof fn law_delete_session_then_recall(
    store: StoreModel,
    id: Seq<char>,
    other: Seq<char>,
    theme: Seq<char>,
    limit: nat,
)
    requires
        other != id,
    ensures
        latest_entries(without_session(store, id).entries, theme, Some(other), limit)
            == latest_entries(store.entries, theme, Some(other), limit),
{
    law_delete_session_spares_others(store, id, recall_matches(theme, Some(other)));
}

/// Sessions are listed with the one updated last first; with room enough, all of
/// them are listed.
pub proof fn law_sessions_listed(sessions: Seq<SessionModel>, limit: nat, offset: nat)
    ensures
        in_order::<Session>(session_page(sessions, limit, offset)),
        session_page(sessions, limit, offset).len() <= limit,
        sessions.len() <= limit ==> session_page(sessions, limit, 0).to_multiset()
            == sessions.to_multiset(),
{
    let order = ranked::<Session>(sessions);
    lemma_ranked_in_order::<Session>(sessions);
    lemma_ranked_same_rows::<Session>(sessions);
    let page = session_page(sessions, limit, offset);
    let wanted = if offset > i64::MAX {
        0
    } else {
        offset
    };
    let from = if order.len() <= wanted {
        order.len()
    } else {
        wanted
    };
    assert forall|i: int, j: int| 0 <= i < j < page.len() implies Session::precedes(
        #[trigger] page[i],
        #[trigger] page[j],
    ) by {
        assert(page[i] == order[from + i]);
        assert(page[j] == order[from + j]);
    }
    if sessions.len() <= limit {
        assert(session_page(sessions, limit, 0) =~= order);
    }
}

/// The first session that is listed is one that was updated last.
pub proof fn law_latest_session_first(sessions: Seq<SessionModel>, limit: nat, i: int)
    requires
        limit > 0,
        0 <= i < sessions.len(),
    ensures
        session_page(sessions, limit, 0).len() > 0,
        text_le(sessions[i].updated_at, session_page(sessions, limit, 0)[0].updated_at),
{
    let order = ranked::<Session>(sessions);
    lemma_ranked_in_order::<Session>(sessions);
    lemma_ranked_same_rows::<Session>(sessions);
    lemma_ranked_contains::<Session>(sessions, sessions[i]);
    let k = choose|k: int| 0 <= k < order.len() && order[k] == sessions[i];
    assert(session_page(sessions, limit, 0)[0] == order[0]);
    if k == 0 {
        lemma_text_le_total(order[0].updated_at, order[0].updated_at);
    } else {
        assert(Session::precedes(order[0], order[k]));
    }
}

/// Pages of sessions, one behind the other, make one long page.
pub proof fn law_session_pages_join(
    sessions: Seq<SessionModel>,
    offset: nat,
    first: nat,
    second: nat,
)
    requires
        offset + first <= i64::MAX,
    ensures
        session_page(sessions, first, offset) + session_page(sessions, second, offset + first)
            == session_page(sessions, first + second, offset),
{
    law_windows_join(ranked::<Session>(sessions), offset, first, second);
}

/// A session that was created is listed, with room enough.
pub proof fn law_created_is_listed(store: StoreModel, s: SessionModel, limit: nat)
    requires
        store.sessions.len() < limit,
    ensures
        session_page(with_session(store, s).sessions, limit, 0).contains(s),
{
    let sessions = store.sessions.push(s);
    assert(sessions[store.sessions.len() as int] == s);
    lemma_ranked_contains::<Session>(sessions, s);
    lemma_ranked_same_rows::<Session>(sessions);
    assert(session_page(sessions, limit, 0) =~= ranked::<Session>(sessions));
}

/// A session is got by its identifier: one of the sessions, and one that has it. There is
/// nothing to get exactly if no session has it.
pub proof fn law_get_session(sessions: Seq<SessionModel>, id: Seq<char>)
    ensures
        session_with_id(sessions, id) matches Some(s) ==> sessions.contains(s) && s.id == id,
        session_with_id(sessions, id) is None <==> forall|i: int|
            0 <= i < sessions.len() ==> (#[trigger] sessions[i]).id != id,
        not_found(id) == "session not found: "@ + id,
        session_id_error(sessions, id) == if exists|i: int|
            0 <= i < sessions.len() && (#[trigger] sessions[i]).id == id {
            Some("UNIQUE constraint failed: sessions.id"@)
        } else {
            None
        },
{
    lemma_session_absent(sessions, id);
    if session_with_id(sessions, id) is Some {
        lemma_got_id(sessions, id);
        lemma_got_one(sessions, id);
    }
}

proof fn lemma_got_one(sessions: Seq<SessionModel>, id: Seq<char>)
    requires
        session_with_id(sessions, id) is Some,
    ensures
        sessions.contains(session_with_id(sessions, id)->0),
    decreases sessions.len(),
{
    let got = session_with_id(sessions, id)->0;
    if sessions.last().id == id {
        assert(sessions[sessions.len() - 1] == got);
    } else {
        let head = sessions.drop_last();
        lemma_got_one(head, id);
        let i = choose|i: int| 0 <= i < head.len() && head[i] == got;
        assert(sessions[i] == got);
    }
}

/// Creating a session adds it behind the others, with the identifier and the title given,
/// or the standing title if none is, created and updated at the given time, with no
/// messages and no summary; nothing else changes.
pub proof fn law_create_adds_session(
    store: StoreModel,
    id: Seq<char>,
    title: Seq<char>,
    now: Seq<char>,
)
    ensures
        ({
            let after = with_session(store, new_session(id, title, now));
            let s = after.sessions.last();
            &&& after.sessions.len() == store.sessions.len() + 1
            &&& after.sessions.drop_last() == store.sessions
            &&& s.id == id
            &&& title.len() > 0 ==> s.title == title
            &&& title.len() == 0 ==> s.title == "New chat"@
            &&& s.created_at == now
            &&& s.updated_at == now
            &&& s.message_count == 0
            &&& s.rolling_summary.len() == 0
            &&& after.entries == store.entries
            &&& after.mementos == store.mementos
            &&& after.index == store.index
            &&& after.storage_path == store.storage_path
        }),
{
    let after = with_session(store, new_session(id, title, now));
    assert(after.sessions.drop_last() =~= store.sessions);
}

/// An update changes the sessions with the identifier, each in its place: title and
/// summary where they are given, and the time of the last change; nothing else changes.
pub proof fn law_update_edits_sessions(
    store: StoreModel,
    id: Seq<char>,
    title: Option<Seq<char>>,
    rolling_summary: Option<Seq<char>>,
    now: Seq<char>,
    i: int,
)
    requires
        0 <= i < store.sessions.len(),
    ensures
        ({
            let after = updated_store(store, session_update(id, title, rolling_summary, now));
            let s = store.sessions[i];
            let t = after.sessions[i];
            &&& after.sessions.len() == store.sessions.len()
            &&& s.id != id ==> t == s
            &&& t.id == s.id
            &&& t.created_at == s.created_at
            &&& t.message_count == s.message_count
            &&& s.id == id ==> {
                &&& t.updated_at == now
                &&& title is Some ==> t.title == title->0
                &&& title is None ==> t.title == s.title
                &&& rolling_summary is Some ==> t.rolling_summary == rolling_summary->0
                &&& rolling_summary is None ==> t.rolling_summary == s.rolling_summary
            }
            &&& after.entries == store.entries
            &&& after.mementos == store.mementos
            &&& after.index == store.index
            &&& after.storage_path == store.storage_path
        }),
{
}

/// An update of a session that is not there changes nothing.
pub proof fn law_update_of_nothing(
    store: StoreModel,
    id: Seq<char>,
    title: Option<Seq<char>>,
    rolling_summary: Option<Seq<char>>,
    now: Seq<char>,
)
    requires
        forall|i: int| 0 <= i < store.sessions.len() ==> (#[trigger] store.sessions[i]).id != id,
    ensures
        updated_store(store, session_update(id, title, rolling_summary, now)) == store,
{
    let after = updated_store(store, session_update(id, title, rolling_summary, now));
    assert(after.sessions =~= store.sessions);
}

/// Storing an entry leaves each session in its place; that of the entry counts one
/// message more, as long as the count can grow, and is updated at the given time; else
/// sessions stay as they are.
pub proof fn law_store_edits_sessions(
    store: StoreModel,
    e: EntryModel,
    now: Seq<char>,
    i: int,
)
    requires
        0 <= i < store.sessions.len(),
    ensures
        ({
            let after = stored_store(store, e, now);
            let s = store.sessions[i];
            let t = after.sessions[i];
            &&& after.sessions.len() == store.sessions.len()
            &&& e.session_id != Some(s.id) ==> t == s
            &&& t.id == s.id
            &&& t.title == s.title
            &&& t.created_at == s.created_at
            &&& t.rolling_summary == s.rolling_summary
            &&& e.session_id == Some(s.id) ==> {
                &&& t.updated_at == now
                &&& s.message_count < 0x7fff_ffff_ffff_ffff ==> t.message_count
                    == s.message_count + 1
                &&& s.message_count == 0x7fff_ffff_ffff_ffff ==> t.message_count
                    == s.message_count
            }
        }),
{
}

/// Deleting a session takes its entries away, from the table and from the index, and the
/// session itself, and nothing else: global entries, entries and sessions with other
/// identifiers, and all mementos stay, in the order in which they stood.
pub proof fn law_delete_session_removes(store: StoreModel, id: Seq<char>)
    ensures
        ({
            let after = without_session(store, id);
            &&& after.entries == store.entries.filter(|e: EntryModel| e.session_id != Some(id))
            &&& after.index == store.index.filter(|e: IndexModel| e.session_id != Some(id))
            &&& after.sessions == store.sessions.filter(|s: SessionModel| s.id != id)
            &&& after.mementos == store.mementos
            &&& after.storage_path == store.storage_path
        }),
{
    lemma_filter_same(
        store.entries,
        |e: EntryModel| e.session_id != Some(id),
        outside_session(id),
    );
    lemma_filter_same(
        store.index,
        |e: IndexModel| e.session_id != Some(id),
        of_other_sessions(id),
    );
    lemma_filter_same(store.sessions, |s: SessionModel| s.id != id, other_than(id));
}

/// Where the deletion of a session stops, its entries have gone or not, all of them
/// alike: once the first part is written, those of the session are gone.
pub proof fn law_delete_session_stops(
    entries: Seq<EntryModel>,
    id: Seq<char>,
    plan: PlanModel,
    done: usize,
)
    requires
        plan.keep == Seq::new(entries.len(), |i: int| outside_session(id)(entries[i])),
        plan.parts == Some(one_part(entries.len())),
    ensures
        done == 0 ==> kept(entries, left_after(plan, done)) == entries,
        done > 0 ==> kept(entries, left_after(plan, done)) == entries.filter(
            |e: EntryModel| e.session_id != Some(id),
        ),
{
    let left = left_after(plan, done);
    if done == 0 {
        let all = |e: EntryModel| true;
        assert forall|i: int| 0 <= i < entries.len() implies #[trigger] left[i] == all(
            entries[i],
        ) by {}
        lemma_kept_is_filter(entries, left, all);
        lemma_filter_all(entries, all);
    } else {
        let pred = |e: EntryModel| e.session_id != Some(id);
        assert forall|i: int| 0 <= i < entries.len() implies #[trigger] left[i] == pred(
            entries[i],
        ) by {
            assert(plan.keep[i] == outside_session(id)(entries[i]));
        }
        lemma_kept_is_filter(entries, left, pred);
    }
}

/// What is told of a session in a list: its identifier, its title, its times and its
/// message count.
pub proof fn law_list_tells_of_session(sessions: Seq<SessionModel>, i: int)
    requires
        0 <= i < sessions.len(),
    ensures
        session_summaries(sessions).len() == sessions.len(),
        session_summaries(sessions)[i].id == sessions[i].id,
        session_summaries(sessions)[i].title == sessions[i].title,
        session_summaries(sessions)[i].created_at == sessions[i].created_at,
        session_summaries(sessions)[i].updated_at == sessions[i].updated_at,
        session_summaries(sessions)[i].message_count == sessions[i].message_count,
{
}

/// A page of sessions is a part of the list of all sessions, in which the one updated
/// last comes first, and of those updated at the same time the one added first: it
/// passes over `offset` sessions, or over none if that is no signed 64-bit number, and
/// has the next ones, as many as there are, but no more than `limit`.
pub proof fn law_session_page(sessions: Seq<SessionModel>, limit: nat, offset: nat)
    ensures
        ({
            let all = session_page(sessions, sessions.len(), 0);
            let page = session_page(sessions, limit, offset);
            let start: int = if offset > 0x7fff_ffff_ffff_ffff {
                0
            } else {
                offset as int
            };
            &&& all.to_multiset() == sessions.to_multiset()
            &&& all.len() == sessions.len()
            &&& forall|i: int, j: int|
                0 <= i < j < all.len() ==> {
                    &&& text_le((#[trigger] all[j]).updated_at, (#[trigger] all[i]).updated_at)
                    &&& text_le(all[i].updated_at, all[j].updated_at) ==> exists|k: int, l: int|
                        0 <= k < l < sessions.len() && #[trigger] sessions[k] == all[i]
                            && #[trigger] sessions[l] == all[j]
                }
            &&& page.len() == if all.len() <= start {
                0
            } else if all.len() - start <= limit {
                all.len() - start
            } else {
                limit as int
            }
            &&& forall|i: int| 0 <= i < page.len() ==> #[trigger] page[i] == all[start + i]
        }),
{
    let order = ranked::<Session>(sessions);
    let all = session_page(sessions, sessions.len(), 0);
    lemma_ranked_in_order::<Session>(sessions);
    lemma_ranked_same_rows::<Session>(sessions);
    assert(all =~= order);
    assert forall|i: int, j: int| 0 <= i < j < all.len() implies {
        &&& text_le((#[trigger] all[j]).updated_at, (#[trigger] all[i]).updated_at)
        &&& text_le(all[i].updated_at, all[j].updated_at) ==> exists|k: int, l: int|
            0 <= k < l < sessions.len() && #[trigger] sessions[k] == all[i]
                && #[trigger] sessions[l] == all[j]
    } by {
        assert(Session::precedes(order[i], order[j]));
        lemma_ranked_pair::<Session>(sessions, i, j);
    }
}

} // verus!
