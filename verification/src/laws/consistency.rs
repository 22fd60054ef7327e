//! What every command keeps: identifiers stay unique, and the index holds what
//! the entries hold.

use crate::codec::{decoded, encoded, law_decode_inverts_encode};
use crate::command::{answered, Command, Draw, Reply};
use crate::index::{not_active, of_other_sessions, of_other_themes, IndexModel};
use crate::mementos::{
    active, can_archive, inactive, lemma_can_archive_any_time, memento_exists, mementos_of,
    replaced_store, replacement,
};
use crate::retention::staying;
use crate::rows::{
    distinct, kept, lemma_distinct_filter, lemma_distinct_kept, lemma_distinct_push,
    lemma_filter_has, lemma_kept_has, lemma_kept_more, lemma_kept_whole, lemma_ranked_contains,
    put_in, ranked, Ranked,
};
use crate::search::entry_with_id;
use crate::sessions::{outside_session, session_update, session_with_id};
use crate::store::{
    applied, index_of, left_after, loaded_index, other_than, possible, sessions_after, settled,
    Outcome, PlanModel, SessionChangeModel, SessionEditModel, StoreModel,
};
use crate::tables::{Entry, EntryModel, MementoModel, SessionModel};
use crate::text::text_of;
use crate::writing::{dimension_error, message_counted, outside_theme};
use vstd::prelude::*;

verus! {

/// The identifier of an entry.
pub open spec fn id_of_entry() -> spec_fn(EntryModel) -> Seq<char> {
    |e: EntryModel| e.id
}

/// The identifier of a session.
pub open spec fn id_of_session() -> spec_fn(SessionModel) -> Seq<char> {
    |s: SessionModel| s.id
}

/// The identifier of a memento.
pub open spec fn id_of_memento() -> spec_fn(MementoModel) -> Seq<char> {
    |m: MementoModel| m.id
}

/// Whether no two entries have the same identifier.
pub open spec fn unique_entries(entries: Seq<EntryModel>) -> bool {
    distinct(entries, id_of_entry())
}

/// Whether no two sessions have the same identifier.
pub open spec fn unique_sessions(sessions: Seq<SessionModel>) -> bool {
    distinct(sessions, id_of_session())
}

/// Whether no two mementos have the same identifier.
pub open spec fn unique_mementos(mementos: Seq<MementoModel>) -> bool {
    distinct(mementos, id_of_memento())
}

/// Whether identifiers are unique in each of the three tables.
pub open spec fn unique_ids(store: StoreModel) -> bool {
    &&& unique_entries(store.entries)
    &&& unique_sessions(store.sessions)
    &&& unique_mementos(store.mementos)
}

/// What the index keeps of the entries, as they stand.
pub open spec fn index_all(entries: Seq<EntryModel>) -> Seq<IndexModel> {
    Seq::new(entries.len(), |i: int| index_of(entries[i]))
}

/// Whether the index holds what the entries hold: the same, in any order.
pub open spec fn mirrors(store: StoreModel) -> bool {
    store.index.to_multiset() == index_all(store.entries).to_multiset()
}

/// An identifier that no entry has is none of theirs.
pub proof fn lemma_entry_absent(entries: Seq<EntryModel>, id: Seq<char>)
    ensures
        entry_with_id(entries, id) is None <==> forall|i: int|
            0 <= i < entries.len() ==> (#[trigger] entries[i]).id != id,
    decreases entries.len(),
{
    if entries.len() > 0 {
        let head = entries.drop_last();
        lemma_entry_absent(head, id);
        if entry_with_id(entries, id) is None {
            assert forall|i: int| 0 <= i < entries.len() implies (#[trigger] entries[i]).id
                != id by {
                if i < head.len() {
                    assert(head[i].id != id);
                }
            }
        } else if entries.last().id == id {
            assert(entries[entries.len() - 1].id == id);
        } else {
            let i = choose|i: int| 0 <= i < head.len() && (#[trigger] head[i]).id == id;
            assert(entries[i].id == id);
        }
    }
}

/// An identifier that no session has is none of theirs.
pub proof fn lemma_session_absent(sessions: Seq<SessionModel>, id: Seq<char>)
    ensures
        session_with_id(sessions, id) is None <==> forall|i: int|
            0 <= i < sessions.len() ==> (#[trigger] sessions[i]).id != id,
    decreases sessions.len(),
{
    if sessions.len() > 0 {
        let head = sessions.drop_last();
        lemma_session_absent(head, id);
        if session_with_id(sessions, id) is None {
            assert forall|i: int| 0 <= i < sessions.len() implies (#[trigger] sessions[i]).id
                != id by {
                if i < head.len() {
                    assert(head[i].id != id);
                }
            }
        } else if sessions.last().id == id {
            assert(sessions[sessions.len() - 1].id == id);
        } else {
            let i = choose|i: int| 0 <= i < head.len() && (#[trigger] head[i]).id == id;
            assert(sessions[i].id == id);
        }
    }
}

proof fn lemma_unique_sessions_edited(sessions: Seq<SessionModel>, edit: SessionEditModel)
    requires
        unique_sessions(sessions),
    ensures
        unique_sessions(sessions_after(sessions, SessionChangeModel::Edit(edit))),
{
    let after = sessions_after(sessions, SessionChangeModel::Edit(edit));
    assert forall|i: int, j: int| 0 <= i < j < after.len() implies id_of_session()(
        #[trigger] after[i],
    ) != id_of_session()(#[trigger] after[j]) by {
        assert(id_of_session()(sessions[i]) != id_of_session()(sessions[j]));
    }
}

proof fn lemma_unique_mementos_added(mementos: Seq<MementoModel>, more: Seq<MementoModel>)
    requires
        unique_mementos(mementos),
        can_archive(mementos, more),
    ensures
        unique_mementos(mementos + more),
{
    let all = mementos + more;
    assert forall|i: int, j: int| 0 <= i < j < all.len() implies id_of_memento()(
        #[trigger] all[i],
    ) != id_of_memento()(#[trigger] all[j]) by {
        if j < mementos.len() {
            assert(id_of_memento()(mementos[i]) != id_of_memento()(mementos[j]));
        } else if i < mementos.len() {
            let m = more[j - mementos.len()];
            assert(!memento_exists(mementos, m.id));
            assert(mementos[i].id != m.id);
        } else {
            assert(more[i - mementos.len()].id != more[j - mementos.len()].id);
        }
    }
}

pub(crate) proof fn lemma_unique_entries_push(entries: Seq<EntryModel>, e: EntryModel)
    requires
        unique_entries(entries),
        entry_with_id(entries, e.id) is None,
    ensures
        unique_entries(entries.push(e)),
{
    lemma_entry_absent(entries, e.id);
    lemma_distinct_push(entries, e, id_of_entry());
}

/// A command that is refused, so that nothing of it is written, changes nothing.
pub proof fn law_refusal_changes_nothing(
    before: StoreModel,
    after: StoreModel,
    cmd: Command,
    draw: Draw,
    reply: Reply,
)
    requires
        answered(before, after, cmd, draw, reply),
        reply is Failed,
    ensures
        after == before,
{
}

/// Commands that only ask change nothing.
pub proof fn law_questions_change_nothing(
    before: StoreModel,
    after: StoreModel,
    cmd: Command,
    draw: Draw,
    reply: Reply,
)
    requires
        answered(before, after, cmd, draw, reply),
        cmd is Recall || cmd is Search || cmd is List || cmd is PeekMemento || cmd is Status
            || cmd is ListSessions || cmd is GetSession,
    ensures
        after == before,
{
}

/// No command lets two entries, two sessions or two mementos have the same
/// identifier.
pub proof fn law_ids_stay_unique(
    before: StoreModel,
    after: StoreModel,
    cmd: Command,
    draw: Draw,
    reply: Reply,
)
    requires
        unique_ids(before),
        answered(before, after, cmd, draw, reply),
    ensures
        unique_ids(after),
{
    match cmd {
        Command::Store { theme, content, vector, metadata, session_id } => {
            if reply is Stored {
                lemma_unique_entries_push(before.entries, after.entries.last());
                if let Some(id) = text_of(session_id) {
                    lemma_unique_sessions_edited(
                        before.sessions,
                        message_counted(text_of(session_id), draw.now@)->Edit_0,
                    );
                }
            }
        },
        Command::Delete { theme } => {
            lemma_distinct_filter(before.entries, outside_theme(theme@), id_of_entry());
        },
        Command::Prune { cutoff, max_per_theme } => {
            lemma_distinct_kept(
                before.entries,
                staying(before.entries, cutoff, max_per_theme as nat),
                id_of_entry(),
            );
        },
        Command::ReplaceActive { theme, content, vector, metadata, session_id } => {
            if reply is Replaced {
                let session = text_of(session_id);
                let left = before.entries.filter(inactive(theme@, session));
                lemma_distinct_filter(before.entries, inactive(theme@, session), id_of_entry());
                if content@.len() > 0 {
                    lemma_unique_entries_push(left, after.entries.last());
                }
                let archived = before.entries.filter(active(theme@, session));
                lemma_can_archive_any_time(before.mementos, archived, 0, draw.archived_at);
                lemma_unique_mementos_added(
                    before.mementos,
                    mementos_of(archived, draw.archived_at),
                );
            }
        },
        Command::CreateSession { title } => {
            lemma_session_absent(before.sessions, draw.session_id@);
            if reply is Created {
                lemma_distinct_push(before.sessions, after.sessions.last(), id_of_session());
            }
        },
        Command::UpdateSession { session_id, title, rolling_summary } => {
            lemma_unique_sessions_edited(
                before.sessions,
                session_update(
                    session_id@,
                    text_of(title),
                    text_of(rolling_summary),
                    draw.now@,
                ),
            );
        },
        Command::DeleteSession { session_id } => {
            lemma_distinct_filter(before.entries, outside_session(session_id@), id_of_entry());
            lemma_distinct_filter(before.sessions, other_than(session_id@), id_of_session());
        },
        _ => {},
    }
}

/// A filter keeps of each row that it accepts as many as there were.
proof fn lemma_filter_count<V>(rows: Seq<V>, pred: spec_fn(V) -> bool, row: V)
    ensures
        rows.filter(pred).to_multiset().count(row) == if pred(row) {
            rows.to_multiset().count(row)
        } else {
            0
        },
    decreases rows.len(),
{
    broadcast use vstd::multiset::group_multiset_axioms;
    broadcast use vstd::seq_lib::group_to_multiset_ensures;

    reveal(Seq::filter);
    if rows.len() > 0 {
        let head = rows.drop_last();
        lemma_filter_count(head, pred, row);
        assert(rows =~= head.push(rows.last()));
        assert(rows.to_multiset() =~= head.to_multiset().insert(rows.last()));
        if pred(rows.last()) {
            assert(rows.filter(pred).to_multiset() =~= head.filter(pred).to_multiset().insert(
                rows.last(),
            ));
        }
    }
}

/// Filters respect that two lists hold the same.
proof fn lemma_filter_multiset<V>(a: Seq<V>, b: Seq<V>, pred: spec_fn(V) -> bool)
    requires
        a.to_multiset() == b.to_multiset(),
    ensures
        a.filter(pred).to_multiset() == b.filter(pred).to_multiset(),
{
    broadcast use vstd::multiset::group_multiset_axioms;

    assert forall|row: V|
        a.filter(pred).to_multiset().count(row) == b.filter(pred).to_multiset().count(row) by {
        lemma_filter_count(a, pred, row);
        lemma_filter_count(b, pred, row);
    }
    assert(a.filter(pred).to_multiset() =~= b.filter(pred).to_multiset());
}

/// Filtering entries and filtering the index are the same if the filters agree.
proof fn lemma_index_all_filter(
    entries: Seq<EntryModel>,
    pred: spec_fn(EntryModel) -> bool,
    index_pred: spec_fn(IndexModel) -> bool,
)
    requires
        forall|e: EntryModel| #[trigger] pred(e) == index_pred(index_of(e)),
    ensures
        index_all(entries.filter(pred)) == index_all(entries).filter(index_pred),
    decreases entries.len(),
{
    reveal(Seq::filter);
    if entries.len() > 0 {
        let head = entries.drop_last();
        lemma_index_all_filter(head, pred, index_pred);
        assert(index_all(entries).drop_last() =~= index_all(head));
        assert(index_all(entries).last() == index_of(entries.last()));
        assert(pred(entries.last()) == index_pred(index_of(entries.last())));
        let before = head.filter(pred);
        assert(index_all(before.push(entries.last())) =~= index_all(before).push(
            index_of(entries.last()),
        ));
    } else {
        assert(index_all(entries.filter(pred)) =~= index_all(entries).filter(index_pred));
    }
}

proof fn lemma_index_all_put_in(entries: Seq<EntryModel>, e: EntryModel)
    ensures
        index_all(put_in::<Entry>(entries, e)).to_multiset() == index_all(
            entries,
        ).to_multiset().insert(index_of(e)),
    decreases entries.len(),
{
    broadcast use vstd::multiset::group_multiset_axioms;
    broadcast use vstd::seq_lib::group_to_multiset_ensures;

    if entries.len() == 0 || Entry::precedes(entries.last(), e) {
        assert(index_all(entries.push(e)) =~= index_all(entries).push(index_of(e)));
    } else {
        let head = entries.drop_last();
        lemma_index_all_put_in(head, e);
        let last = index_of(entries.last());
        assert(index_all(put_in::<Entry>(entries, e)) =~= index_all(
            put_in::<Entry>(head, e),
        ).push(last));
        assert(index_all(entries) =~= index_all(head).push(last));
        assert(index_all(put_in::<Entry>(entries, e)).to_multiset() =~= index_all(
            entries,
        ).to_multiset().insert(index_of(e)));
    }
}

/// The index that is built from the entries holds what they hold.
pub proof fn law_loaded_index_mirrors(entries: Seq<EntryModel>)
    ensures
        loaded_index(entries).to_multiset() == index_all(entries).to_multiset(),
    decreases entries.len(),
{
    broadcast use vstd::seq_lib::group_to_multiset_ensures;

    assert(loaded_index(entries) =~= index_all(ranked::<Entry>(entries)));
    if entries.len() > 0 {
        let head = entries.drop_last();
        law_loaded_index_mirrors(head);
        assert(loaded_index(head) =~= index_all(ranked::<Entry>(head)));
        lemma_index_all_put_in(ranked::<Entry>(head), entries.last());
        assert(index_all(entries) =~= index_all(head).push(index_of(entries.last())));
    } else {
        assert(loaded_index(entries) =~= index_all(entries));
    }
}

proof fn lemma_mirrors_filter(
    before: StoreModel,
    after: StoreModel,
    pred: spec_fn(EntryModel) -> bool,
    index_pred: spec_fn(IndexModel) -> bool,
)
    requires
        mirrors(before),
        after.entries == before.entries.filter(pred),
        after.index == before.index.filter(index_pred),
        forall|e: EntryModel| #[trigger] pred(e) == index_pred(index_of(e)),
    ensures
        mirrors(after),
{
    lemma_index_all_filter(before.entries, pred, index_pred);
    lemma_filter_multiset(before.index, index_all(before.entries), index_pred);
}

pub(crate) proof fn lemma_mirrors_push(before: StoreModel, after: StoreModel, e: EntryModel)
    requires
        mirrors(before),
        after.entries == before.entries.push(e),
        after.index == before.index.push(index_of(e)),
    ensures
        mirrors(after),
{
    broadcast use vstd::seq_lib::group_to_multiset_ensures;

    assert(index_all(after.entries) =~= index_all(before.entries).push(index_of(e)));
}

/// A replacement lets the index hold what the entries hold.
pub(crate) proof fn lemma_replaced_mirrors(
    store: StoreModel,
    theme: Seq<char>,
    session: Option<Seq<char>>,
    archived_at: u64,
    add: Option<EntryModel>,
)
    requires
        mirrors(store),
    ensures
        mirrors(replaced_store(store, theme, session, archived_at, add)),
{
    let after = replaced_store(store, theme, session, archived_at, add);
    let between = StoreModel {
        entries: store.entries.filter(inactive(theme, session)),
        index: store.index.filter(not_active(theme, session)),
        ..store
    };
    lemma_mirrors_filter(store, between, inactive(theme, session), not_active(theme, session));
    if let Some(e) = add {
        lemma_mirrors_push(between, after, e);
    }
}

/// Every command lets the index hold what the entries hold.
pub proof fn law_index_mirrors_entries(
    before: StoreModel,
    after: StoreModel,
    cmd: Command,
    draw: Draw,
    reply: Reply,
)
    requires
        mirrors(before),
        answered(before, after, cmd, draw, reply),
    ensures
        mirrors(after),
{
    match cmd {
        Command::Store { theme, content, vector, metadata, session_id } => {
            if reply is Stored {
                lemma_mirrors_push(before, after, after.entries.last());
            }
        },
        Command::Delete { theme } => {
            lemma_mirrors_filter(before, after, outside_theme(theme@), of_other_themes(theme@));
        },
        Command::Prune { cutoff, max_per_theme } => {
            lemma_kept_whole(
                before.entries,
                staying(before.entries, cutoff, max_per_theme as nat),
            );
            law_loaded_index_mirrors(after.entries);
        },
        Command::ReplaceActive { theme, content, vector, metadata, session_id } => {
            if reply is Replaced {
                lemma_replaced_mirrors(
                    before,
                    theme@,
                    text_of(session_id),
                    draw.archived_at,
                    replacement(
                        draw.entry_id@,
                        theme@,
                        content@,
                        vector@,
                        draw.stored_at,
                        metadata,
                        text_of(session_id),
                    ),
                );
            }
        },
        Command::Reindex => {
            law_loaded_index_mirrors(before.entries);
        },
        Command::DeleteSession { session_id } => {
            lemma_mirrors_filter(
                before,
                after,
                outside_session(session_id@),
                of_other_sessions(session_id@),
            );
        },
        _ => {},
    }
}

/// `reindex` lets the index hold what the entries hold, whatever it held before.
pub proof fn law_reindex_restores(before: StoreModel, after: StoreModel, draw: Draw, reply: Reply)
    requires
        answered(before, after, Command::Reindex, draw, reply),
    ensures
        mirrors(after),
        after.entries == before.entries,
{
    law_loaded_index_mirrors(before.entries);
}

/// Whether all vectors have one dimension, and none is empty.
pub open spec fn one_dimension(index: Seq<IndexModel>) -> bool {
    forall|i: int, j: int|
        0 <= i < index.len() && 0 <= j < index.len() ==> 0 < (#[trigger] index[i]).vector.len()
            == (#[trigger] index[j]).vector.len()
}

proof fn lemma_one_dimension_within(a: Seq<IndexModel>, b: Seq<IndexModel>)
    requires
        one_dimension(b),
        forall|i: int| 0 <= i < a.len() ==> b.contains(#[trigger] a[i]),
    ensures
        one_dimension(a),
{
    assert forall|i: int, j: int| 0 <= i < a.len() && 0 <= j < a.len() implies 0 < (
    #[trigger] a[i]).vector.len() == (#[trigger] a[j]).vector.len() by {
        let k = choose|k: int| 0 <= k < b.len() && b[k] == a[i];
        let l = choose|l: int| 0 <= l < b.len() && b[l] == a[j];
        assert(0 < b[k].vector.len() == b[l].vector.len());
    }
}

proof fn lemma_one_dimension_filter(index: Seq<IndexModel>, pred: spec_fn(IndexModel) -> bool)
    requires
        one_dimension(index),
    ensures
        one_dimension(index.filter(pred)),
{
    let left = index.filter(pred);
    assert forall|i: int| 0 <= i < left.len() implies index.contains(#[trigger] left[i]) by {
        assert(left.contains(left[i]));
        lemma_filter_has(index, pred, left[i]);
    }
    lemma_one_dimension_within(left, index);
}

/// The index of some of the entries has one dimension, if the index mirrors the
/// entries and has one.
proof fn lemma_one_dimension_loaded(before: StoreModel, entries: Seq<EntryModel>)
    requires
        mirrors(before),
        one_dimension(before.index),
        forall|e: EntryModel| #[trigger] entries.contains(e) ==> before.entries.contains(e),
    ensures
        one_dimension(loaded_index(entries)),
{
    broadcast use vstd::seq_lib::group_to_multiset_ensures;

    let index = loaded_index(entries);
    assert forall|i: int| 0 <= i < index.len() implies before.index.contains(
        #[trigger] index[i],
    ) by {
        let e = ranked::<Entry>(entries)[i];
        assert(ranked::<Entry>(entries).contains(e));
        lemma_ranked_contains::<Entry>(entries, e);
        let k = choose|k: int| 0 <= k < before.entries.len() && before.entries[k] == e;
        assert(index_all(before.entries)[k] == index[i]);
        assert(index_all(before.entries).contains(index[i]));
        assert(index_all(before.entries).to_multiset().count(index[i]) > 0);
        assert(before.index.to_multiset().count(index[i]) > 0);
    }
    lemma_one_dimension_within(index, before.index);
}

/// As long as the index holds what the entries hold, all its vectors keep one
/// dimension, and none is empty, whatever command is carried out but one:
/// `replace_active` does not look at the dimension, and breaks this with a vector
/// that is empty or does not fit those that stay.
pub proof fn law_one_dimension(
    before: StoreModel,
    after: StoreModel,
    cmd: Command,
    draw: Draw,
    reply: Reply,
)
    requires
        mirrors(before),
        one_dimension(before.index),
        answered(before, after, cmd, draw, reply),
        cmd matches Command::ReplaceActive { theme, content, vector, session_id, .. }
            ==> content@.len() == 0 || dimension_error(
            before.index.filter(not_active(theme@, text_of(session_id))),
            vector@.len(),
        ) is None,
    ensures
        one_dimension(after.index),
{
    match cmd {
        Command::Store { theme, content, vector, metadata, session_id } => {
            if reply is Stored {
                lemma_one_dimension_push(before.index, vector@, after.index.last());
            }
        },
        Command::Delete { theme } => {
            lemma_one_dimension_filter(before.index, of_other_themes(theme@));
        },
        Command::Prune { cutoff, max_per_theme } => {
            let flags = staying(before.entries, cutoff, max_per_theme as nat);
            assert forall|e: EntryModel| #[trigger] after.entries.contains(
                e,
            ) implies before.entries.contains(e) by {
                lemma_kept_has(before.entries, flags, e);
            }
            lemma_one_dimension_loaded(before, after.entries);
        },
        Command::ReplaceActive { theme, content, vector, metadata, session_id } => {
            if reply is Replaced {
                let stay = not_active(theme@, text_of(session_id));
                lemma_one_dimension_filter(before.index, stay);
                if content@.len() > 0 {
                    lemma_one_dimension_push(
                        before.index.filter(stay),
                        vector@,
                        after.index.last(),
                    );
                }
            }
        },
        Command::Reindex => {
            lemma_one_dimension_loaded(before, before.entries);
        },
        Command::DeleteSession { session_id } => {
            lemma_one_dimension_filter(before.index, of_other_sessions(session_id@));
        },
        _ => {},
    }
}

proof fn lemma_one_dimension_push(index: Seq<IndexModel>, vector: Seq<u32>, added: IndexModel)
    requires
        one_dimension(index),
        dimension_error(index, vector.len()) is None,
        added.vector == decoded(encoded(vector)),
    ensures
        one_dimension(index.push(added)),
{
    law_decode_inverts_encode(vector);
    let all = index.push(added);
    assert forall|i: int, j: int| 0 <= i < all.len() && 0 <= j < all.len() implies 0 < (
    #[trigger] all[i]).vector.len() == (#[trigger] all[j]).vector.len() by {
        if index.len() > 0 {
            assert(0 < index[0].vector.len() == index[0].vector.len());
            if i < index.len() {
                assert(index[i].vector.len() == index[0].vector.len());
            }
            if j < index.len() {
                assert(index[j].vector.len() == index[0].vector.len());
            }
        }
    }
}

/// Identifiers stay unique however the attempt to write the plan of a command went.
pub proof fn law_ids_stay_unique_in_every_outcome(
    before: StoreModel,
    plan: PlanModel,
    outcome: Outcome,
    cmd: Command,
    draw: Draw,
    reply: Reply,
)
    requires
        unique_ids(before),
        answered(before, applied(before, plan), cmd, draw, reply),
        possible(plan, outcome),
    ensures
        unique_ids(settled(before, plan, outcome)),
{
    law_ids_stay_unique(before, applied(before, plan), cmd, draw, reply);
    if let Outcome::Stopped(done, _) = outcome {
        lemma_distinct_kept(before.entries, left_after(plan, done), id_of_entry());
    }
}

/// The index holds what the entries hold however the attempt to write the plan of a
/// command went, also where an entry was stored and its session did not count it;
/// but for one outcome: where the writing stopped between parts, the index still
/// holds the entries that have gone.
pub proof fn law_index_mirrors_in_every_outcome(
    before: StoreModel,
    plan: PlanModel,
    outcome: Outcome,
    cmd: Command,
    draw: Draw,
    reply: Reply,
)
    requires
        mirrors(before),
        answered(before, applied(before, plan), cmd, draw, reply),
        possible(plan, outcome),
        !(outcome is Stopped),
    ensures
        mirrors(settled(before, plan, outcome)),
{
    law_index_mirrors_entries(before, applied(before, plan), cmd, draw, reply);
}

/// Where the writing of a plan stopped between parts, nothing has gone that was to
/// stay, nothing is there that was not there before, and all that is left is still
/// in the index. Sessions and mementos are as they were.
pub proof fn law_stopped_loses_nothing(
    before: StoreModel,
    plan: PlanModel,
    outcome: Outcome,
    e: EntryModel,
)
    requires
        mirrors(before),
        outcome is Stopped,
        possible(plan, outcome),
    ensures
        kept(before.entries, plan.keep).contains(e) ==> settled(
            before,
            plan,
            outcome,
        ).entries.contains(e),
        settled(before, plan, outcome).entries.contains(e) ==> before.entries.contains(e)
            && settled(before, plan, outcome).index.contains(index_of(e)),
        settled(before, plan, outcome).sessions == before.sessions,
        settled(before, plan, outcome).mementos == before.mementos,
{
    broadcast use vstd::seq_lib::group_to_multiset_ensures;

    let left = left_after(plan, outcome->Stopped_0);
    if kept(before.entries, plan.keep).contains(e) {
        lemma_kept_more(before.entries, plan.keep, left, e);
    }
    if kept(before.entries, left).contains(e) {
        lemma_kept_has(before.entries, left, e);
        let k = choose|k: int| 0 <= k < before.entries.len() && before.entries[k] == e;
        let all = index_all(before.entries);
        assert(all[k] == index_of(e));
        assert(all.contains(index_of(e)));
        assert(all.to_multiset().count(index_of(e)) > 0);
    }
}

/// The vectors keep one dimension however the attempt to write the plan of a command
/// went, but for a replacement with a vector that does not fit, as above.
pub proof fn law_one_dimension_in_every_outcome(
    before: StoreModel,
    plan: PlanModel,
    outcome: Outcome,
    cmd: Command,
    draw: Draw,
    reply: Reply,
)
    requires
        mirrors(before),
        one_dimension(before.index),
        answered(before, applied(before, plan), cmd, draw, reply),
        possible(plan, outcome),
        cmd matches Command::ReplaceActive { theme, content, vector, session_id, .. }
            ==> content@.len() == 0 || dimension_error(
            before.index.filter(not_active(theme@, text_of(session_id))),
            vector@.len(),
        ) is None,
    ensures
        one_dimension(settled(before, plan, outcome).index),
{
    law_one_dimension(before, applied(before, plan), cmd, draw, reply);
}

} // verus!
