//! Laws of `replace_active` and `peek_memento`.

use crate::calendar::date_time_text;
use crate::codec::{decoded, law_decode_inverts_encode};
use crate::index::{not_active, IndexModel};
use crate::json::{json_text, json_value};
use crate::laws::consistency::{id_of_entry, lemma_entry_absent, unique_entries};
use crate::mementos::{
    active, can_archive, inactive, latest_mementos, memento_exists, memento_matches, mementos_of,
    peeked_mementos, replace_error, replaced_store, replacement, replacement_id,
};
use crate::numbers::{double_key, double_whole};
use crate::recall::{latest_entries, recall_matches};
use crate::rows::{
    lemma_distinct_filter, lemma_filter_all, lemma_filter_has, lemma_filter_none,
    lemma_filter_order, lemma_filter_push, lemma_filter_same, lemma_filter_twice,
    lemma_ranked_contains, lemma_ranked_in_order, lemma_ranked_last, lemma_ranked_pair,
    lemma_ranked_same_rows, ranked, stands_before, Ranked,
};
use crate::search::entry_with_id;
use crate::store::StoreModel;
use crate::tables::{Entry, EntryModel, Memento, MementoModel};
use serde_json::Value;
use vstd::prelude::*;

verus! {

/// Rows that come no earlier than the others, and that stand in order, go to the
/// end together.
proof fn lemma_ranked_append(rows: Seq<MementoModel>, more: Seq<MementoModel>, at: u64)
    requires
        forall|i: int|
            0 <= i < rows.len() ==> double_key((#[trigger] rows[i]).archived_at) <= double_key(at),
        forall|i: int| 0 <= i < more.len() ==> (#[trigger] more[i]).archived_at == at,
    ensures
        ranked::<Memento>(rows + more) == ranked::<Memento>(rows) + more,
    decreases more.len(),
{
    if more.len() > 0 {
        let head = more.drop_last();
        let last = more.last();
        assert forall|i: int| 0 <= i < head.len() implies (#[trigger] head[i]).archived_at
            == at by {
            assert(head[i] == more[i]);
        }
        lemma_ranked_append(rows, head, at);
        assert(more[more.len() - 1].archived_at == at);
        assert(rows + more =~= (rows + head).push(last));
        assert forall|i: int| 0 <= i < (rows + head).len() implies Memento::precedes(
            #[trigger] (rows + head)[i],
            last,
        ) by {
            if i >= rows.len() {
                assert(head[i - rows.len()].archived_at == at);
            }
        }
        lemma_ranked_last::<Memento>(rows + head, last);
        assert((ranked::<Memento>(rows) + head).push(last) =~= ranked::<Memento>(rows) + more);
    } else {
        assert(rows + more =~= rows);
        assert(ranked::<Memento>(rows) + more =~= ranked::<Memento>(rows));
    }
}

proof fn lemma_replace_then_peek(
    store: StoreModel,
    theme: Seq<char>,
    session: Option<Seq<char>>,
    archived_at: u64,
    add: Option<EntryModel>,
    more: nat,
)
    requires
        forall|i: int|
            0 <= i < store.mementos.len() && memento_matches(theme, session)(
                #[trigger] store.mementos[i],
            ) ==> double_key(store.mementos[i].archived_at) <= double_key(archived_at),
    ensures
        ({
            let archived = mementos_of(store.entries.filter(active(theme, session)), archived_at);
            let after = replaced_store(store, theme, session, archived_at, add);
            latest_mementos(after.mementos, theme, session, archived.len() + more)
                == archived.reverse() + latest_mementos(store.mementos, theme, session, more)
        }),
{
    let leaving = store.entries.filter(active(theme, session));
    let archived = mementos_of(leaving, archived_at);
    let after = replaced_store(store, theme, session, archived_at, add);
    let pred = memento_matches(theme, session);
    Seq::filter_distributes_over_add(store.mementos, archived, pred);
    assert forall|i: int| 0 <= i < archived.len() implies pred(#[trigger] archived[i]) by {
        assert(leaving.contains(leaving[i]));
        lemma_filter_has(store.entries, active(theme, session), leaving[i]);
    }
    lemma_filter_all(archived, pred);
    let rows = store.mementos.filter(pred);
    assert forall|i: int| 0 <= i < rows.len() implies double_key((#[trigger] rows[i]).archived_at)
        <= double_key(archived_at) by {
        assert(rows.contains(rows[i]));
        lemma_filter_has(store.mementos, pred, rows[i]);
        let k = choose|k: int| 0 <= k < store.mementos.len() && store.mementos[k] == rows[i];
        assert(double_key(store.mementos[k].archived_at) <= double_key(archived_at));
    }
    lemma_ranked_append(rows, archived, archived_at);
    assert(latest_mementos(after.mementos, theme, session, archived.len() + more)
        =~= archived.reverse() + latest_mementos(store.mementos, theme, session, more));
}

/// What was active before is the first that a peek shows, the last added first, with
/// its content, its time and its metadata, and behind it comes what a peek showed
/// before; if nothing of the theme was archived at a later time.
pub proof fn law_replace_then_peek(
    store: StoreModel,
    theme: Seq<char>,
    session: Option<Seq<char>>,
    archived_at: u64,
    add: Option<EntryModel>,
    more: nat,
)
    requires
        forall|i: int|
            0 <= i < store.mementos.len() && (#[trigger] store.mementos[i]).theme == theme
                && store.mementos[i].session_id == session ==> double_key(
                store.mementos[i].archived_at,
            ) <= double_key(archived_at),
    ensures
        ({
            let leaving = store.entries.filter(
                |e: EntryModel| e.theme == theme && e.session_id == session,
            );
            let n = leaving.len();
            let after = replaced_store(store, theme, session, archived_at, add);
            let shown = latest_mementos(after.mementos, theme, session, n + more);
            &&& shown.len() >= n
            &&& shown.skip(n as int) == latest_mementos(store.mementos, theme, session, more)
            &&& forall|i: int|
                0 <= i < n ==> {
                    let m = shown[n - 1 - i];
                    &&& m.id == (#[trigger] leaving[i]).id
                    &&& m.theme == leaving[i].theme
                    &&& m.content == leaving[i].content
                    &&& m.vector == leaving[i].vector
                    &&& m.stored_at == leaving[i].stored_at
                    &&& m.archived_at == archived_at
                    &&& m.metadata == leaving[i].metadata
                    &&& m.session_id == leaving[i].session_id
                }
        }),
{
    lemma_filter_same(
        store.entries,
        |e: EntryModel| e.theme == theme && e.session_id == session,
        active(theme, session),
    );
    lemma_replace_then_peek(store, theme, session, archived_at, add, more);
    let leaving = store.entries.filter(active(theme, session));
    let archived = mementos_of(leaving, archived_at);
    let after = replaced_store(store, theme, session, archived_at, add);
    let shown = latest_mementos(after.mementos, theme, session, leaving.len() + more);
    assert(shown.skip(leaving.len() as int) =~= latest_mementos(
        store.mementos,
        theme,
        session,
        more,
    ));
    assert forall|i: int| 0 <= i < leaving.len() implies shown[leaving.len() - 1 - i]
        == archived[i] by {
        assert(shown[leaving.len() - 1 - i] == archived.reverse()[leaving.len() - 1 - i]);
    }
}

/// Nothing is lost: every entry that was active has become a memento with the same
/// identifier, theme, content, vector, time, metadata and session, archived at the
/// given time.
pub proof fn law_replace_archives(
    store: StoreModel,
    theme: Seq<char>,
    session: Option<Seq<char>>,
    archived_at: u64,
    add: Option<EntryModel>,
    e: EntryModel,
)
    requires
        store.entries.contains(e),
        e.theme == theme,
        e.session_id == session,
    ensures
        ({
            let after = replaced_store(store, theme, session, archived_at, add).mementos;
            exists|i: int|
                {
                    &&& 0 <= i < after.len()
                    &&& (#[trigger] after[i]).id == e.id
                    &&& after[i].theme == e.theme
                    &&& after[i].content == e.content
                    &&& after[i].vector == e.vector
                    &&& after[i].stored_at == e.stored_at
                    &&& after[i].archived_at == archived_at
                    &&& after[i].metadata == e.metadata
                    &&& after[i].session_id == e.session_id
                }
        }),
{
    let leaving = store.entries.filter(active(theme, session));
    lemma_filter_has(store.entries, active(theme, session), e);
    let i = choose|i: int| 0 <= i < leaving.len() && leaving[i] == e;
    let after = replaced_store(store, theme, session, archived_at, add);
    assert(after.mementos[store.mementos.len() + i].id == e.id);
}

/// A replacement leaves the mementos that there were in their places, and adds one for
/// each entry of the theme and the session, in the order of the entries, with the same
/// identifier, theme, content, vector, time, metadata and session; and no others.
pub proof fn law_replace_adds_mementos(
    store: StoreModel,
    theme: Seq<char>,
    session: Option<Seq<char>>,
    archived_at: u64,
    add: Option<EntryModel>,
)
    ensures
        ({
            let leaving = store.entries.filter(
                |e: EntryModel| e.theme == theme && e.session_id == session,
            );
            let n = store.mementos.len();
            let after = replaced_store(store, theme, session, archived_at, add).mementos;
            &&& after.len() == n + leaving.len()
            &&& after.take(n as int) == store.mementos
            &&& forall|i: int|
                0 <= i < leaving.len() ==> {
                    let m = after[n + i];
                    &&& m.id == (#[trigger] leaving[i]).id
                    &&& m.theme == leaving[i].theme
                    &&& m.content == leaving[i].content
                    &&& m.vector == leaving[i].vector
                    &&& m.stored_at == leaving[i].stored_at
                    &&& m.archived_at == archived_at
                    &&& m.metadata == leaving[i].metadata
                    &&& m.session_id == leaving[i].session_id
                }
        }),
{
    lemma_filter_same(
        store.entries,
        |e: EntryModel| e.theme == theme && e.session_id == session,
        active(theme, session),
    );
    let after = replaced_store(store, theme, session, archived_at, add).mementos;
    assert(after.take(store.mementos.len() as int) =~= store.mementos);
}

/// A replacement takes the entries of the theme and the session away, from the table
/// and from the index, and nothing else; what is left stands in the order in which it
/// stood, and the new entry, if there is one, comes last, in both. Sessions are not
/// touched.
pub proof fn law_replace_removes_active(
    store: StoreModel,
    theme: Seq<char>,
    session: Option<Seq<char>>,
    archived_at: u64,
    add: Option<EntryModel>,
)
    ensures
        ({
            let after = replaced_store(store, theme, session, archived_at, add);
            let left = store.entries.filter(
                |e: EntryModel| e.theme != theme || e.session_id != session,
            );
            let indexed = store.index.filter(
                |e: IndexModel| e.theme != theme || e.session_id != session,
            );
            &&& after.sessions == store.sessions
            &&& after.storage_path == store.storage_path
            &&& match add {
                None => after.entries == left && after.index == indexed,
                Some(e) => {
                    &&& after.entries == left + seq![e]
                    &&& after.index.len() == indexed.len() + 1
                    &&& after.index.drop_last() == indexed
                    &&& after.index.last().id == e.id
                    &&& after.index.last().theme == e.theme
                    &&& after.index.last().session_id == e.session_id
                    &&& after.index.last().vector == decoded(e.vector)
                },
            }
        }),
{
    let after = replaced_store(store, theme, session, archived_at, add);
    lemma_filter_same(
        store.entries,
        |e: EntryModel| e.theme != theme || e.session_id != session,
        inactive(theme, session),
    );
    lemma_filter_same(
        store.index,
        |e: IndexModel| e.theme != theme || e.session_id != session,
        not_active(theme, session),
    );
    if let Some(e) = add {
        assert(after.entries =~= store.entries.filter(inactive(theme, session)) + seq![e]);
        assert(after.index.drop_last() =~= store.index.filter(not_active(theme, session)));
    }
}

/// The entry that takes the place of the active ones has the identifier, the theme, the
/// content, the time and the session given, and its metadata as text; its bytes hold
/// the vector given, and so does the index. With empty content there is none.
pub proof fn law_replacement_row(
    store: StoreModel,
    id: Seq<char>,
    theme: Seq<char>,
    content: Seq<char>,
    vector: Seq<u32>,
    stored_at: u64,
    metadata: Option<Value>,
    session: Option<Seq<char>>,
    archived_at: u64,
)
    ensures
        ({
            let add = replacement(id, theme, content, vector, stored_at, metadata, session);
            let after = replaced_store(store, theme, session, archived_at, add);
            &&& content.len() == 0 <==> add is None
            &&& content.len() > 0 ==> {
                let e = after.entries.last();
                let x = after.index.last();
                &&& add == Some(e)
                &&& e.id == id
                &&& e.theme == theme
                &&& e.content == content
                &&& decoded(e.vector) == vector
                &&& e.vector.len() == 4 * vector.len()
                &&& e.stored_at == stored_at
                &&& metadata is None ==> e.metadata is None
                &&& metadata is Some ==> e.metadata == Some(json_text(metadata->0))
                &&& e.session_id == session
                &&& x.id == id
                &&& x.theme == theme
                &&& x.vector == vector
                &&& x.session_id == session
            }
        }),
{
    law_decode_inverts_encode(vector);
}

/// A replacement is refused exactly if an identifier would occur twice: that of an
/// active entry among the mementos, or, if there is a new entry, its own among the
/// entries that stay. The reason names the table.
pub proof fn law_replace_refused(
    store: StoreModel,
    theme: Seq<char>,
    session: Option<Seq<char>>,
    id: Seq<char>,
    content: Seq<char>,
)
    requires
        unique_entries(store.entries),
    ensures
        ({
            let error = replace_error(store, theme, session, replacement_id(id, content));
            let archived_before = exists|k: int, m: int|
                {
                    &&& 0 <= k < store.entries.len()
                    &&& 0 <= m < store.mementos.len()
                    &&& (#[trigger] store.entries[k]).theme == theme
                    &&& store.entries[k].session_id == session
                    &&& (#[trigger] store.mementos[m]).id == store.entries[k].id
                };
            let taken = exists|k: int|
                {
                    &&& 0 <= k < store.entries.len()
                    &&& (#[trigger] store.entries[k]).id == id
                    &&& store.entries[k].theme != theme || store.entries[k].session_id != session
                };
            error == if archived_before {
                Some("UNIQUE constraint failed: mementos.id"@)
            } else if content.len() > 0 && taken {
                Some("UNIQUE constraint failed: entries.id"@)
            } else {
                None
            }
        }),
{
    let leaving = store.entries.filter(active(theme, session));
    let left = store.entries.filter(inactive(theme, session));
    let archived = mementos_of(leaving, 0);
    lemma_distinct_filter(store.entries, active(theme, session), id_of_entry());
    assert forall|i: int, j: int| 0 <= i < j < archived.len() implies (#[trigger] archived[i]).id
        != (#[trigger] archived[j]).id by {
        assert(id_of_entry()(leaving[i]) != id_of_entry()(leaving[j]));
    }
    if !can_archive(store.mementos, archived) {
        let i = choose|i: int|
            0 <= i < archived.len() && memento_exists(store.mementos, (#[trigger] archived[i]).id);
        let m = choose|m: int|
            0 <= m < store.mementos.len() && (#[trigger] store.mementos[m]).id == archived[i].id;
        assert(leaving.contains(leaving[i]));
        lemma_filter_has(store.entries, active(theme, session), leaving[i]);
        let k = choose|k: int| 0 <= k < store.entries.len() && store.entries[k] == leaving[i];
        assert(store.entries[k].theme == theme && store.mementos[m].id == store.entries[k].id);
    } else {
        assert forall|k: int, m: int|
            0 <= k < store.entries.len() && 0 <= m < store.mementos.len() && (
            #[trigger] store.entries[k]).theme == theme && store.entries[k].session_id
                == session implies (#[trigger] store.mementos[m]).id != store.entries[k].id by {
            assert(store.entries.contains(store.entries[k]));
            lemma_filter_has(store.entries, active(theme, session), store.entries[k]);
            let i = choose|i: int| 0 <= i < leaving.len() && leaving[i] == store.entries[k];
            assert(!memento_exists(store.mementos, archived[i].id));
        }
        lemma_entry_absent(left, id);
        if entry_with_id(left, id) is Some {
            let i = choose|i: int| 0 <= i < left.len() && (#[trigger] left[i]).id == id;
            assert(left.contains(left[i]));
            lemma_filter_has(store.entries, inactive(theme, session), left[i]);
            let k = choose|k: int| 0 <= k < store.entries.len() && store.entries[k] == left[i];
            assert(store.entries[k].id == id);
        } else {
            assert forall|k: int|
                0 <= k < store.entries.len() && (store.entries[k].theme != theme
                    || store.entries[k].session_id != session) implies (
            #[trigger] store.entries[k]).id != id by {
                assert(store.entries.contains(store.entries[k]));
                lemma_filter_has(store.entries, inactive(theme, session), store.entries[k]);
                let i = choose|i: int| 0 <= i < left.len() && left[i] == store.entries[k];
                assert(left[i].id != id);
            }
        }
    }
}

/// What is told of a memento is its content, the whole seconds of the times at which it
/// was stored and archived, written out, and its metadata as far as their text is JSON.
pub proof fn law_peek_tells(mementos: Seq<MementoModel>, i: int)
    requires
        0 <= i < mementos.len(),
    ensures
        peeked_mementos(mementos).len() == mementos.len(),
        ({
            let told = peeked_mementos(mementos)[i];
            let m = mementos[i];
            &&& told.content == m.content
            &&& told.stored_at == date_time_text(double_whole(m.stored_at) as nat, ' ')
            &&& told.archived_at == date_time_text(double_whole(m.archived_at) as nat, ' ')
            &&& m.metadata is None ==> told.metadata is None
            &&& m.metadata is Some ==> told.metadata == json_value(m.metadata->0)
        }),
{
}

proof fn lemma_replaced_is_active(
    store: StoreModel,
    theme: Seq<char>,
    session: Option<Seq<char>>,
    archived_at: u64,
    add: Option<EntryModel>,
)
    requires
        add matches Some(e) ==> e.theme == theme && e.session_id == session,
    ensures
        replaced_store(store, theme, session, archived_at, add).entries.filter(
            active(theme, session),
        ) == match add {
            Some(e) => seq![e],
            None => Seq::empty(),
        },
{
    let left = store.entries.filter(inactive(theme, session));
    assert forall|i: int| 0 <= i < left.len() implies !active(theme, session)(
        #[trigger] left[i],
    ) by {
        assert(left.contains(left[i]));
        lemma_filter_has(store.entries, inactive(theme, session), left[i]);
    }
    lemma_filter_none(left, active(theme, session));
    if let Some(e) = add {
        lemma_filter_push(left, e, active(theme, session));
        assert(Seq::<EntryModel>::empty().push(e) =~= seq![e]);
    }
}

/// After a replacement, the new entry is the only one of its theme and session; after a
/// forgetting, there is none.
pub proof fn law_replaced_is_active(
    store: StoreModel,
    theme: Seq<char>,
    session: Option<Seq<char>>,
    archived_at: u64,
    add: Option<EntryModel>,
)
    requires
        add matches Some(e) ==> e.theme == theme && e.session_id == session,
    ensures
        replaced_store(store, theme, session, archived_at, add).entries.filter(
            |e: EntryModel| e.theme == theme && e.session_id == session,
        ) == match add {
            Some(e) => seq![e],
            None => Seq::empty(),
        },
{
    lemma_replaced_is_active(store, theme, session, archived_at, add);
    lemma_filter_same(
        replaced_store(store, theme, session, archived_at, add).entries,
        |e: EntryModel| e.theme == theme && e.session_id == session,
        active(theme, session),
    );
}

/// What a session recalls of a theme after a replacement is the new entry alone;
/// after a forgetting, it recalls nothing.
pub proof fn law_replace_then_recall(
    store: StoreModel,
    theme: Seq<char>,
    session: Seq<char>,
    archived_at: u64,
    add: Option<EntryModel>,
    limit: nat,
)
    requires
        limit > 0,
        add matches Some(e) ==> e.theme == theme && e.session_id == Some(session),
    ensures
        latest_entries(
            replaced_store(store, theme, Some(session), archived_at, add).entries,
            theme,
            Some(session),
            limit,
        ) == match add {
            Some(e) => seq![e],
            None => Seq::empty(),
        },
{
    let after = replaced_store(store, theme, Some(session), archived_at, add);
    lemma_replaced_is_active(store, theme, Some(session), archived_at, add);
    lemma_filter_same(
        after.entries,
        recall_matches(theme, Some(session)),
        active(theme, Some(session)),
    );
    if let Some(e) = add {
        lemma_ranked_last::<Entry>(Seq::empty(), e);
        assert(Seq::<EntryModel>::empty().push(e) =~= seq![e]);
    }
}

/// Other entries and other mementos are not touched: those of other themes, and
/// those of the same theme in other sessions.
pub proof fn law_replace_spares_others(
    store: StoreModel,
    theme: Seq<char>,
    session: Option<Seq<char>>,
    archived_at: u64,
    add: Option<EntryModel>,
    other_theme: Seq<char>,
    other_session: Option<Seq<char>>,
    limit: nat,
)
    requires
        add matches Some(e) ==> e.theme == theme && e.session_id == session,
        other_theme != theme || other_session != session,
    ensures
        ({
            let after = replaced_store(store, theme, session, archived_at, add);
            &&& after.entries.filter(active(other_theme, other_session)) == store.entries.filter(
                active(other_theme, other_session),
            )
            &&& latest_mementos(after.mementos, other_theme, other_session, limit)
                == latest_mementos(store.mementos, other_theme, other_session, limit)
        }),
{
    let after = replaced_store(store, theme, session, archived_at, add);
    let pred = active(other_theme, other_session);
    let first = inactive(theme, session);
    let left = store.entries.filter(first);
    let both = |e: EntryModel| first(e) && pred(e);
    lemma_filter_twice(store.entries, first, pred, both);
    lemma_filter_same(store.entries, both, pred);
    if let Some(e) = add {
        lemma_filter_push(left, e, pred);
    }
    let leaving = store.entries.filter(active(theme, session));
    let archived = mementos_of(leaving, archived_at);
    let matching = memento_matches(other_theme, other_session);
    Seq::filter_distributes_over_add(store.mementos, archived, matching);
    assert forall|i: int| 0 <= i < archived.len() implies !matching(#[trigger] archived[i]) by {
        assert(leaving.contains(leaving[i]));
        lemma_filter_has(store.entries, active(theme, session), leaving[i]);
    }
    lemma_filter_none(archived, matching);
    assert(store.mementos.filter(matching) + Seq::<MementoModel>::empty()
        =~= store.mementos.filter(matching));
}

/// Peeking shows mementos of the theme and the session asked for, where global mementos
/// have no session; the latest first, and of mementos archived at the same instant the
/// one added later first; and as many as there are, but no more than the limit.
pub proof fn law_peek_shows_latest(
    mementos: Seq<MementoModel>,
    theme: Seq<char>,
    session: Option<Seq<char>>,
    limit: nat,
)
    ensures
        ({
            let shown = latest_mementos(mementos, theme, session, limit);
            let matches = mementos.filter(
                |m: MementoModel| m.theme == theme && m.session_id == session,
            );
            &&& shown.len() == (if matches.len() <= limit {
                matches.len()
            } else {
                limit
            })
            &&& forall|i: int, j: int|
                0 <= i < j < shown.len() ==> {
                    ||| double_key((#[trigger] shown[j]).archived_at) < double_key(
                        (#[trigger] shown[i]).archived_at,
                    )
                    ||| double_key(shown[j].archived_at) == double_key(shown[i].archived_at) && (
                    exists|k: int, l: int|
                        0 <= k < l < mementos.len() && #[trigger] mementos[k] == shown[j]
                            && #[trigger] mementos[l] == shown[i])
                }
            &&& forall|i: int|
                0 <= i < shown.len() ==> mementos.contains(#[trigger] shown[i]) && shown[i].theme
                    == theme && shown[i].session_id == session
        }),
{
    let pred = memento_matches(theme, session);
    lemma_filter_same(
        mementos,
        |m: MementoModel| m.theme == theme && m.session_id == session,
        pred,
    );
    let matches = mementos.filter(pred);
    let order = ranked::<Memento>(matches);
    let shown = latest_mementos(mementos, theme, session, limit);
    lemma_ranked_same_rows::<Memento>(matches);
    lemma_ranked_in_order::<Memento>(matches);
    assert forall|i: int| 0 <= i < shown.len() implies mementos.contains(#[trigger] shown[i])
        && shown[i].theme == theme && shown[i].session_id == session by {
        assert(shown[i] == order[order.len() - 1 - i]);
        assert(order.contains(shown[i]));
        lemma_ranked_contains::<Memento>(matches, shown[i]);
        lemma_filter_has(mementos, pred, shown[i]);
    }
    assert forall|i: int, j: int| 0 <= i < j < shown.len() implies {
        ||| double_key((#[trigger] shown[j]).archived_at) < double_key(
            (#[trigger] shown[i]).archived_at,
        )
        ||| double_key(shown[j].archived_at) == double_key(shown[i].archived_at) && (exists|
            k: int,
            l: int,
        |
            0 <= k < l < mementos.len() && #[trigger] mementos[k] == shown[j]
                && #[trigger] mementos[l] == shown[i])
    } by {
        let k = order.len() - 1 - j;
        let l = order.len() - 1 - i;
        assert(shown[i] == order[l]);
        assert(shown[j] == order[k]);
        assert(Memento::precedes(order[k], order[l]));
        lemma_ranked_pair::<Memento>(matches, k, l);
        if stands_before(matches, order[k], order[l]) {
            lemma_filter_order(mementos, pred, order[k], order[l]);
        }
    }
}

/// What peeking leaves out was not archived later than what it shows.
pub proof fn law_peek_leaves_out_earlier(
    mementos: Seq<MementoModel>,
    theme: Seq<char>,
    session: Option<Seq<char>>,
    limit: nat,
    m: MementoModel,
    i: int,
)
    requires
        mementos.contains(m),
        m.theme == theme,
        m.session_id == session,
        !latest_mementos(mementos, theme, session, limit).contains(m),
        0 <= i < latest_mementos(mementos, theme, session, limit).len(),
    ensures
        double_key(m.archived_at) <= double_key(
            latest_mementos(mementos, theme, session, limit)[i].archived_at,
        ),
{
    let pred = memento_matches(theme, session);
    let matches = mementos.filter(pred);
    let order = ranked::<Memento>(matches);
    let shown = latest_mementos(mementos, theme, session, limit);
    lemma_filter_has(mementos, pred, m);
    lemma_ranked_contains::<Memento>(matches, m);
    lemma_ranked_in_order::<Memento>(matches);
    let k = choose|k: int| 0 <= k < order.len() && order[k] == m;
    let l = order.len() - 1 - i;
    assert(shown[i] == order[l]);
    if k >= order.len() - shown.len() {
        assert(shown[order.len() - 1 - k] == m);
    }
    assert(Memento::precedes(order[k], order[l]));
}

} // verus!
