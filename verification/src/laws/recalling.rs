//! Laws of `store`, `recall` and `delete`.

use crate::codec::{decoded, law_decode_inverts_encode};
use crate::index::{of_other_themes, IndexModel};
use crate::json::{json_text, json_value};
use crate::laws::consistency::lemma_entry_absent;
use crate::numbers::double_key;
use crate::recall::{latest_entries, recall_matches, recalled_entries};
use crate::rows::{
    in_order, lemma_filter_all, lemma_filter_has, lemma_filter_none, lemma_filter_order,
    lemma_filter_push, lemma_filter_same, lemma_filter_twice, lemma_ranked_contains,
    lemma_ranked_in_order, lemma_ranked_last, lemma_ranked_pair, lemma_ranked_same_rows,
    lemma_ranked_stable, ranked, ranks_like, stands_before, Ranked,
};
use crate::store::StoreModel;
use crate::tables::{Entry, EntryModel};
use crate::text::decimal;
use crate::writing::{
    deleted_store, dimension_error, entry_id_error, has_theme, new_entry, outside_theme,
    store_error, stored_store,
};
use serde_json::Value;
use vstd::prelude::*;

verus! {

/// `recall` returns entries of the theme, and with a session entries of that session;
/// as many as there are, but no more than the limit; oldest first, and of entries
/// stored at the same instant the one added first.
pub proof fn law_recall_returns_matches(
    entries: Seq<EntryModel>,
    theme: Seq<char>,
    session: Option<Seq<char>>,
    limit: nat,
)
    ensures
        ({
            let recalled = latest_entries(entries, theme, session, limit);
            let matches = entries.filter(
                |e: EntryModel| e.theme == theme && (session is None || e.session_id == session),
            );
            &&& recalled.len() == (if matches.len() <= limit {
                matches.len()
            } else {
                limit
            })
            &&& forall|i: int, j: int|
                0 <= i < j < recalled.len() ==> {
                    ||| double_key((#[trigger] recalled[i]).stored_at) < double_key(
                        (#[trigger] recalled[j]).stored_at,
                    )
                    ||| double_key(recalled[i].stored_at) == double_key(recalled[j].stored_at) && (
                    exists|k: int, l: int|
                        0 <= k < l < entries.len() && #[trigger] entries[k] == recalled[i]
                            && #[trigger] entries[l] == recalled[j])
                }
            &&& forall|i: int|
                0 <= i < recalled.len() ==> entries.contains(#[trigger] recalled[i])
                    && recalled[i].theme == theme && (session is Some ==> recalled[i].session_id
                    == session)
        }),
{
    let pred = recall_matches(theme, session);
    lemma_filter_same(
        entries,
        |e: EntryModel| e.theme == theme && (session is None || e.session_id == session),
        pred,
    );
    let matches = entries.filter(pred);
    let order = ranked::<Entry>(matches);
    let recalled = latest_entries(entries, theme, session, limit);
    lemma_ranked_same_rows::<Entry>(matches);
    lemma_ranked_in_order::<Entry>(matches);
    let start = order.len() - recalled.len();
    assert forall|i: int| 0 <= i < recalled.len() implies entries.contains(#[trigger] recalled[i])
        && recalled[i].theme == theme && (session is Some ==> recalled[i].session_id
        == session) by {
        assert(recalled[i] == order[start + i]);
        assert(order.contains(recalled[i]));
        lemma_ranked_contains::<Entry>(matches, recalled[i]);
        lemma_filter_has(entries, pred, recalled[i]);
    }
    assert forall|i: int, j: int| 0 <= i < j < recalled.len() implies {
        ||| double_key((#[trigger] recalled[i]).stored_at) < double_key(
            (#[trigger] recalled[j]).stored_at,
        )
        ||| double_key(recalled[i].stored_at) == double_key(recalled[j].stored_at) && (exists|
            k: int,
            l: int,
        |
            0 <= k < l < entries.len() && #[trigger] entries[k] == recalled[i]
                && #[trigger] entries[l] == recalled[j])
    } by {
        assert(recalled[i] == order[start + i]);
        assert(recalled[j] == order[start + j]);
        assert(Entry::precedes(order[start + i], order[start + j]));
        lemma_ranked_pair::<Entry>(matches, start + i, start + j);
        if stands_before(matches, recalled[i], recalled[j]) {
            lemma_filter_order(entries, pred, recalled[i], recalled[j]);
        }
    }
}

/// `recall` returns the most recent entries: those that it leaves out come no
/// later than those that it returns, and among entries of the same instant the
/// ones added later are the more recent.
pub proof fn law_recall_returns_latest(
    entries: Seq<EntryModel>,
    theme: Seq<char>,
    session: Option<Seq<char>>,
    limit: nat,
)
    ensures
        exists|left_out: Seq<EntryModel>|
            {
                let matches = entries.filter(recall_matches(theme, session));
                let all = #[trigger] (left_out + latest_entries(entries, theme, session, limit));
                &&& all.to_multiset() == matches.to_multiset()
                &&& in_order::<Entry>(all)
                &&& forall|like: EntryModel|
                    all.filter(#[trigger] ranks_like::<Entry>(like)) == matches.filter(
                        ranks_like::<Entry>(like),
                    )
            },
{
    let matches = entries.filter(recall_matches(theme, session));
    let order = ranked::<Entry>(matches);
    let recalled = latest_entries(entries, theme, session, limit);
    let left_out = order.take(order.len() - recalled.len());
    let all = left_out + recalled;
    assert(all =~= order);
    lemma_ranked_same_rows::<Entry>(matches);
    lemma_ranked_in_order::<Entry>(matches);
    assert forall|like: EntryModel|
        all.filter(#[trigger] ranks_like::<Entry>(like)) == matches.filter(
            ranks_like::<Entry>(like),
        ) by {
        lemma_ranked_stable::<Entry>(matches, like);
    }
}

/// What `recall` leaves out was stored before all that it returns, or at the same
/// instant and added before.
pub proof fn law_recall_leaves_out_earlier(
    entries: Seq<EntryModel>,
    theme: Seq<char>,
    session: Option<Seq<char>>,
    limit: nat,
    e: EntryModel,
    i: int,
)
    requires
        entries.contains(e),
        e.theme == theme,
        session is None || e.session_id == session,
        !latest_entries(entries, theme, session, limit).contains(e),
        0 <= i < latest_entries(entries, theme, session, limit).len(),
    ensures
        ({
            let recalled = latest_entries(entries, theme, session, limit);
            ||| double_key(e.stored_at) < double_key(recalled[i].stored_at)
            ||| double_key(e.stored_at) == double_key(recalled[i].stored_at) && (exists|
                k: int,
                l: int,
            |
                0 <= k < l < entries.len() && #[trigger] entries[k] == e && #[trigger] entries[l]
                    == recalled[i])
        }),
{
    let pred = recall_matches(theme, session);
    let matches = entries.filter(pred);
    let order = ranked::<Entry>(matches);
    let recalled = latest_entries(entries, theme, session, limit);
    let start = order.len() - recalled.len();
    lemma_filter_has(entries, pred, e);
    lemma_ranked_contains::<Entry>(matches, e);
    lemma_ranked_in_order::<Entry>(matches);
    let k = choose|k: int| 0 <= k < order.len() && order[k] == e;
    if k >= start {
        assert(recalled[k - start] == e);
    }
    assert(recalled[i] == order[start + i]);
    assert(Entry::precedes(order[k], order[start + i]));
    lemma_ranked_pair::<Entry>(matches, k, start + i);
    if stands_before(matches, e, recalled[i]) {
        lemma_filter_order(entries, pred, e, recalled[i]);
    }
}

/// What is told of an entry is its content, its theme, its time, its session, and its
/// metadata as far as their text is JSON.
pub proof fn law_recall_tells(entries: Seq<EntryModel>, i: int)
    requires
        0 <= i < entries.len(),
    ensures
        recalled_entries(entries).len() == entries.len(),
        ({
            let told = recalled_entries(entries)[i];
            let e = entries[i];
            &&& told.content == e.content
            &&& told.theme == e.theme
            &&& told.stored_at == e.stored_at
            &&& told.session_id == e.session_id
            &&& e.metadata is None ==> told.metadata is None
            &&& e.metadata is Some ==> told.metadata == json_value(e.metadata->0)
        }),
{
}

/// An entry that was stored comes last in the table and in the index, which are else as
/// they were. It has the identifier, the theme, the content, the time and the session
/// given, and its metadata as text; its bytes hold the vector given, and so does the
/// index, component for component. Mementos are not touched.
pub proof fn law_stored_row(
    store: StoreModel,
    id: Seq<char>,
    theme: Seq<char>,
    content: Seq<char>,
    vector: Seq<u32>,
    stored_at: u64,
    metadata: Option<Value>,
    session: Option<Seq<char>>,
    now: Seq<char>,
)
    ensures
        ({
            let after = stored_store(
                store,
                new_entry(id, theme, content, vector, stored_at, metadata, session),
                now,
            );
            let e = after.entries.last();
            let x = after.index.last();
            &&& after.entries.len() == store.entries.len() + 1
            &&& after.entries.drop_last() == store.entries
            &&& after.index.len() == store.index.len() + 1
            &&& after.index.drop_last() == store.index
            &&& after.mementos == store.mementos
            &&& after.storage_path == store.storage_path
            &&& e.id == id
            &&& e.theme == theme
            &&& e.content == content
            &&& decoded(e.vector) == vector
            &&& e.vector.len() == 4 * vector.len()
            &&& e.stored_at == stored_at
            &&& metadata is None ==> e.metadata is None
            &&& metadata is Some ==> e.metadata == Some(json_text(metadata->0))
            &&& e.session_id == session
            &&& x.id == id
            &&& x.theme == theme
            &&& x.vector == vector
            &&& x.session_id == session
        }),
{
    law_decode_inverts_encode(vector);
    let e = new_entry(id, theme, content, vector, stored_at, metadata, session);
    assert(store.entries.push(e).drop_last() =~= store.entries);
    let after = stored_store(store, e, now);
    assert(after.index.drop_last() =~= store.index);
}

/// What was stored is recalled last, if nothing that matches carries a later
/// time: with its content, its theme, its time, its session, and what its metadata
/// reads as.
pub proof fn law_store_then_recall(
    store: StoreModel,
    id: Seq<char>,
    theme: Seq<char>,
    content: Seq<char>,
    vector: Seq<u32>,
    stored_at: u64,
    metadata: Option<Value>,
    session: Option<Seq<char>>,
    now: Seq<char>,
    asked: Option<Seq<char>>,
    limit: nat,
)
    requires
        limit > 0,
        asked is None || asked == session,
        forall|i: int|
            0 <= i < store.entries.len() && (#[trigger] store.entries[i]).theme == theme && (
            asked is None || store.entries[i].session_id == asked) ==> double_key(
                store.entries[i].stored_at,
            ) <= double_key(stored_at),
    ensures
        ({
            let e = new_entry(id, theme, content, vector, stored_at, metadata, session);
            let after = stored_store(store, e, now);
            let recalled = recalled_entries(latest_entries(after.entries, theme, asked, limit));
            let told = recalled.last();
            &&& recalled.len() > 0
            &&& told.content == content
            &&& told.theme == theme
            &&& told.stored_at == stored_at
            &&& told.session_id == session
            &&& metadata is None ==> told.metadata is None
            &&& metadata is Some ==> told.metadata == json_value(json_text(metadata->0))
        }),
{
    let e = new_entry(id, theme, content, vector, stored_at, metadata, session);
    let pred = recall_matches(theme, asked);
    lemma_filter_push(store.entries, e, pred);
    let matches = store.entries.filter(pred);
    assert forall|i: int| 0 <= i < matches.len() implies Entry::precedes(
        #[trigger] matches[i],
        e,
    ) by {
        lemma_filter_has(store.entries, pred, matches[i]);
        assert(matches.contains(matches[i]));
        let k = choose|k: int| 0 <= k < store.entries.len() && store.entries[k] == matches[i];
        assert(double_key(store.entries[k].stored_at) <= double_key(stored_at));
    }
    lemma_ranked_last::<Entry>(matches, e);
}

/// Storing is refused exactly if the vector is empty, if the index holds vectors and the
/// first of them has another dimension, or if the identifier is taken; in the last case
/// the reason is that of the database.
pub proof fn law_store_refused(store: StoreModel, dimension: nat, id: Seq<char>)
    ensures
        ({
            let error = store_error(store, dimension, id);
            let misfit = dimension == 0 || (store.index.len() > 0
                && store.index[0].vector.len() != dimension);
            let taken = exists|i: int|
                0 <= i < store.entries.len() && (#[trigger] store.entries[i]).id == id;
            &&& error is Some <==> misfit || taken
            &&& !misfit && taken ==> error == Some("UNIQUE constraint failed: entries.id"@)
            &&& dimension == 0 ==> error == Some("dimension mismatch: the vector is empty"@)
            &&& misfit && dimension > 0 ==> error == Some(
                "dimension mismatch: the index has dimension "@ + decimal(
                    store.index[0].vector.len(),
                ) + ", the vector has dimension "@ + decimal(dimension),
            )
            &&& dimension_error(store.index, dimension) is Some <==> misfit
            &&& entry_id_error(store.entries, id) is Some <==> taken
            &&& misfit ==> error == dimension_error(store.index, dimension)
            &&& !misfit ==> error == entry_id_error(store.entries, id)
        }),
{
    lemma_entry_absent(store.entries, id);
}

/// What was stored is recalled, whatever its time, as long as the limit leaves
/// room for all that match.
pub proof fn law_stored_is_recalled(
    store: StoreModel,
    e: EntryModel,
    now: Seq<char>,
    asked: Option<Seq<char>>,
    limit: nat,
)
    requires
        asked is None || asked == e.session_id,
        store.entries.filter(
            |x: EntryModel| x.theme == e.theme && (asked is None || x.session_id == asked),
        ).len() < limit,
    ensures
        latest_entries(stored_store(store, e, now).entries, e.theme, asked, limit).contains(e),
{
    let pred = recall_matches(e.theme, asked);
    lemma_filter_same(
        store.entries,
        |x: EntryModel| x.theme == e.theme && (asked is None || x.session_id == asked),
        pred,
    );
    lemma_filter_push(store.entries, e, pred);
    let matches = store.entries.push(e).filter(pred);
    assert(matches[matches.len() - 1] == e);
    lemma_ranked_same_rows::<Entry>(matches);
    lemma_ranked_contains::<Entry>(matches, e);
}

/// Storing an entry does not change what is recalled of another theme, or for a
/// session to which the entry does not belong.
pub proof fn law_store_elsewhere(
    store: StoreModel,
    e: EntryModel,
    now: Seq<char>,
    theme: Seq<char>,
    asked: Option<Seq<char>>,
    limit: nat,
)
    requires
        theme != e.theme || (asked is Some && asked != e.session_id),
    ensures
        latest_entries(stored_store(store, e, now).entries, theme, asked, limit) == latest_entries(
            store.entries,
            theme,
            asked,
            limit,
        ),
{
    lemma_filter_push(store.entries, e, recall_matches(theme, asked));
}

/// After a theme was deleted nothing of it is recalled, for no session, and the
/// index holds nothing of it.
pub proof fn law_delete_then_recall(
    store: StoreModel,
    theme: Seq<char>,
    asked: Option<Seq<char>>,
    limit: nat,
)
    ensures
        !has_theme(deleted_store(store, theme).entries, theme),
        latest_entries(deleted_store(store, theme).entries, theme, asked, limit) == Seq::<
            EntryModel,
        >::empty(),
        forall|i: int|
            0 <= i < deleted_store(store, theme).index.len() ==> (#[trigger] deleted_store(
                store,
                theme,
            ).index[i]).theme != theme,
{
    let left = store.entries.filter(outside_theme(theme));
    assert forall|i: int| 0 <= i < left.len() implies (#[trigger] left[i]).theme != theme by {
        assert(left.contains(left[i]));
        lemma_filter_has(store.entries, outside_theme(theme), left[i]);
    }
    lemma_filter_none(left, recall_matches(theme, asked));
    let index = deleted_store(store, theme).index;
    let pred = of_other_themes(theme);
    assert forall|i: int| 0 <= i < index.len() implies (#[trigger] index[i]).theme != theme by {
        assert(index.contains(index[i]));
        lemma_filter_has(store.index, pred, index[i]);
    }
}

/// Deleting a theme takes the entries of the theme away, from the table and from the
/// index, whatever their session, and nothing else; it tells whether there was one.
pub proof fn law_delete_removes(store: StoreModel, theme: Seq<char>)
    ensures
        ({
            let after = deleted_store(store, theme);
            &&& after.entries == store.entries.filter(|e: EntryModel| e.theme != theme)
            &&& after.index == store.index.filter(|e: IndexModel| e.theme != theme)
            &&& after.sessions == store.sessions
            &&& after.mementos == store.mementos
            &&& after.storage_path == store.storage_path
            &&& has_theme(store.entries, theme) <==> after.entries.len() < store.entries.len()
        }),
{
    let pred = outside_theme(theme);
    lemma_filter_same(store.entries, |e: EntryModel| e.theme != theme, pred);
    lemma_filter_same(store.index, |e: IndexModel| e.theme != theme, of_other_themes(theme));
    let left = store.entries.filter(pred);
    if has_theme(store.entries, theme) {
        let i = choose|i: int|
            0 <= i < store.entries.len() && (#[trigger] store.entries[i]).theme == theme;
        lemma_filter_fewer(store.entries, pred, i);
    } else {
        lemma_filter_all(store.entries, pred);
    }
}

/// A filter that does not accept a row leaves fewer rows.
proof fn lemma_filter_fewer<V>(rows: Seq<V>, pred: spec_fn(V) -> bool, i: int)
    requires
        0 <= i < rows.len(),
        !pred(rows[i]),
    ensures
        rows.filter(pred).len() < rows.len(),
    decreases rows.len(),
{
    reveal(Seq::filter);
    let head = rows.drop_last();
    head.lemma_filter_len(pred);
    if i < head.len() {
        lemma_filter_fewer(head, pred, i);
    }
}

/// Deleting a theme leaves what is recalled of the other themes as it is.
pub proof fn law_delete_spares_other_themes(
    store: StoreModel,
    theme: Seq<char>,
    other: Seq<char>,
    asked: Option<Seq<char>>,
    limit: nat,
)
    requires
        other != theme,
    ensures
        latest_entries(deleted_store(store, theme).entries, other, asked, limit) == latest_entries(
            store.entries,
            other,
            asked,
            limit,
        ),
{
    let pred = recall_matches(other, asked);
    let first = outside_theme(theme);
    let both = |e: EntryModel| first(e) && pred(e);
    lemma_filter_twice(store.entries, first, pred, both);
    lemma_filter_same(store.entries, both, pred);
}

/// Deleting a theme again changes nothing.
pub proof fn law_delete_twice(store: StoreModel, theme: Seq<char>)
    ensures
        deleted_store(deleted_store(store, theme), theme) == deleted_store(store, theme),
{
    let p = outside_theme(theme);
    lemma_filter_twice(store.entries, p, p, p);
    let q = of_other_themes(theme);
    lemma_filter_twice(store.index, q, q, q);
}

/// Recalling with a limit of zero, or where nothing matches, finds nothing; else
/// something is found.
pub proof fn law_recall_finds(
    entries: Seq<EntryModel>,
    theme: Seq<char>,
    session: Option<Seq<char>>,
    limit: nat,
)
    ensures
        latest_entries(entries, theme, session, limit).len() > 0 <==> limit > 0 && exists|i: int|
            0 <= i < entries.len() && (#[trigger] entries[i]).theme == theme && (session is None
                || entries[i].session_id == session),
{
    let pred = recall_matches(theme, session);
    let matches = entries.filter(pred);
    lemma_ranked_same_rows::<Entry>(matches);
    if matches.len() > 0 {
        assert(matches.contains(matches[0]));
        lemma_filter_has(entries, pred, matches[0]);
        let i = choose|i: int| 0 <= i < entries.len() && entries[i] == matches[0];
        assert(entries[i].theme == theme);
    }
    if exists|i: int|
        0 <= i < entries.len() && (#[trigger] entries[i]).theme == theme && (session is None
            || entries[i].session_id == session) {
        let i = choose|i: int|
            0 <= i < entries.len() && (#[trigger] entries[i]).theme == theme && (session is None
                || entries[i].session_id == session);
        lemma_filter_has(entries, pred, entries[i]);
        assert(entries.contains(entries[i]));
    }
}

} // verus!
