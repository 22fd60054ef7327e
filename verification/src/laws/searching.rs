//! Laws of `search`: of what it tells of the hits in its window, and of when it is
//! refused for their number.

use crate::index::{
    accepted, of_other_themes, search_hits, searched, Hit, HitModel, IndexModel,
};
use crate::laws::consistency::{
    id_of_entry, index_all, lemma_entry_absent, lemma_mirrors_push, lemma_replaced_mirrors,
    lemma_unique_entries_push, mirrors, unique_entries,
};
use crate::mementos::{inactive, replaced_store};
use crate::numbers::{single_at_least, single_is_nan, single_key};
use crate::rows::{
    distinct, in_order, lemma_distinct_filter, lemma_filter_has, lemma_ranked_contains,
    lemma_ranked_in_order, lemma_ranked_pair, lemma_ranked_same_rows, ranked, stands_before,
    window, Ranked,
};
use crate::search::{
    entry_with_id, found_entries, found_entry, hits_id, search_answer, FoundModel,
};
use crate::store::{index_of, StoreModel};
use crate::tables::EntryModel;
use crate::writing::{deleted_store, stored_store};
use vstd::prelude::*;

verus! {

/// The identifier of an entry of the index.
pub open spec fn index_id() -> spec_fn(IndexModel) -> Seq<char> {
    |e: IndexModel| e.id
}

/// The identifier of a hit.
pub open spec fn hit_id() -> spec_fn(HitModel) -> Seq<char> {
    |h: HitModel| h.id
}

proof fn lemma_distinct_transfer<V>(a: Seq<V>, b: Seq<V>, id: spec_fn(V) -> Seq<char>)
    requires
        a.to_multiset() == b.to_multiset(),
        distinct(a, id),
    ensures
        distinct(b, id),
{
    broadcast use vstd::seq_lib::group_to_multiset_ensures;

    assert(a.no_duplicates()) by {
        assert forall|i: int, j: int| 0 <= i < a.len() && 0 <= j < a.len() && i != j implies a[i]
            != a[j] by {
            if i < j {
                assert(id(a[i]) != id(a[j]));
            } else {
                assert(id(a[j]) != id(a[i]));
            }
        }
    }
    a.lemma_multiset_has_no_duplicates();
    b.lemma_multiset_has_no_duplicates_conv();
    assert forall|i: int, j: int| 0 <= i < j < b.len() implies id(#[trigger] b[i]) != id(
        #[trigger] b[j],
    ) by {
        assert(b.contains(b[i]));
        assert(b.contains(b[j]));
        assert(a.to_multiset().count(b[i]) > 0);
        assert(a.to_multiset().count(b[j]) > 0);
        assert(a.contains(b[i]));
        assert(a.contains(b[j]));
        let k = choose|k: int| 0 <= k < a.len() && a[k] == b[i];
        let l = choose|l: int| 0 <= l < a.len() && a[l] == b[j];
        assert(b[i] != b[j]);
        if k < l {
            assert(id(a[k]) != id(a[l]));
        } else {
            assert(l < k);
            assert(id(a[l]) != id(a[k]));
        }
    }
}

/// A hit is accepted exactly if it stands for an entry of the index that the
/// search looks at and whose score reaches the least one.
proof fn lemma_accepted_has(
    index: Seq<IndexModel>,
    scores: Seq<u32>,
    min_score: u32,
    theme: Option<Seq<char>>,
    session: Option<Seq<char>>,
    hit: HitModel,
)
    ensures
        accepted(index, scores, min_score, theme, session).contains(hit) <==> exists|i: int|
            0 <= i < index.len() && searched(#[trigger] index[i], theme, session)
                && single_at_least(scores[i], min_score) && hit.score == scores[i] && hit.id
                == index[i].id,
    decreases index.len(),
{
    if index.len() > 0 {
        let head = index.drop_last();
        let before = accepted(head, scores, min_score, theme, session);
        let all = accepted(index, scores, min_score, theme, session);
        lemma_accepted_has(head, scores, min_score, theme, session, hit);
        if all.contains(hit) {
            let k = choose|k: int| 0 <= k < all.len() && all[k] == hit;
            if k < before.len() {
                assert(before[k] == hit);
                assert(before.contains(hit));
                let i = choose|i: int|
                    0 <= i < head.len() && searched(#[trigger] head[i], theme, session)
                        && single_at_least(scores[i], min_score) && hit.score == scores[i]
                        && hit.id == head[i].id;
                assert(index[i] == head[i]);
            } else {
                assert(index[index.len() - 1] == index.last());
            }
        }
        if exists|i: int|
            0 <= i < index.len() && searched(#[trigger] index[i], theme, session)
                && single_at_least(scores[i], min_score) && hit.score == scores[i] && hit.id
                == index[i].id {
            let i = choose|i: int|
                0 <= i < index.len() && searched(#[trigger] index[i], theme, session)
                    && single_at_least(scores[i], min_score) && hit.score == scores[i] && hit.id
                    == index[i].id;
            if i < head.len() {
                assert(head[i] == index[i]);
                assert(before.contains(hit));
                let k = choose|k: int| 0 <= k < before.len() && before[k] == hit;
                assert(all[k] == hit);
            } else {
                assert(all[before.len() as int] == hit);
            }
        }
    }
}

proof fn lemma_search_hits(
    index: Seq<IndexModel>,
    scores: Seq<u32>,
    min_score: u32,
    theme: Option<Seq<char>>,
    session: Option<Seq<char>>,
    hit: HitModel,
)
    ensures
        search_hits(index, scores, min_score, theme, session).contains(hit) <==> exists|i: int|
            0 <= i < index.len() && searched(#[trigger] index[i], theme, session)
                && single_at_least(scores[i], min_score) && hit.score == scores[i] && hit.id
                == index[i].id,
{
    let found = accepted(index, scores, min_score, theme, session);
    lemma_ranked_contains::<Hit>(found, hit);
    lemma_accepted_has(index, scores, min_score, theme, session, hit);
}

/// A search finds, best first, exactly the entries of the index that the filters let
/// through and whose score is a number that is not less than the least one: with a
/// theme, those of that theme; with a session, those of that session and the global
/// ones, whether a theme is given or not.
pub proof fn law_search_hits(
    index: Seq<IndexModel>,
    scores: Seq<u32>,
    min_score: u32,
    theme: Option<Seq<char>>,
    session: Option<Seq<char>>,
    hit: HitModel,
)
    ensures
        ({
            let hits = search_hits(index, scores, min_score, theme, session);
            &&& forall|i: int, j: int|
                0 <= i < j < hits.len() ==> single_key((#[trigger] hits[i]).score) >= single_key(
                    (#[trigger] hits[j]).score,
                )
            &&& hits.contains(hit) <==> exists|i: int|
                {
                    &&& 0 <= i < index.len()
                    &&& hit.id == (#[trigger] index[i]).id
                    &&& hit.score == scores[i]
                    &&& theme is None || index[i].theme == theme->0
                    &&& session is None || index[i].session_id is None || index[i].session_id
                        == session
                    &&& !single_is_nan(scores[i])
                    &&& !single_is_nan(min_score)
                    &&& single_key(scores[i]) >= single_key(min_score)
                }
        }),
{
    let hits = search_hits(index, scores, min_score, theme, session);
    lemma_ranked_in_order::<Hit>(accepted(index, scores, min_score, theme, session));
    assert forall|i: int, j: int| 0 <= i < j < hits.len() implies single_key(
        (#[trigger] hits[i]).score,
    ) >= single_key((#[trigger] hits[j]).score) by {
        assert(Hit::precedes(hits[i], hits[j]));
    }
    lemma_search_hits(index, scores, min_score, theme, session, hit);
    if hits.contains(hit) {
        let i = choose|i: int|
            0 <= i < index.len() && searched(#[trigger] index[i], theme, session)
                && single_at_least(scores[i], min_score) && hit.score == scores[i] && hit.id
                == index[i].id;
        assert(hit.id == index[i].id);
    }
    if exists|i: int|
        {
            &&& 0 <= i < index.len()
            &&& hit.id == (#[trigger] index[i]).id
            &&& hit.score == scores[i]
            &&& theme is None || index[i].theme == theme->0
            &&& session is None || index[i].session_id is None || index[i].session_id == session
            &&& !single_is_nan(scores[i])
            &&& !single_is_nan(min_score)
            &&& single_key(scores[i]) >= single_key(min_score)
        } {
        let i = choose|i: int|
            {
                &&& 0 <= i < index.len()
                &&& hit.id == (#[trigger] index[i]).id
                &&& hit.score == scores[i]
                &&& theme is None || index[i].theme == theme->0
                &&& session is None || index[i].session_id is None || index[i].session_id
                    == session
                &&& !single_is_nan(scores[i])
                &&& !single_is_nan(min_score)
                &&& single_key(scores[i]) >= single_key(min_score)
            };
        assert(searched(index[i], theme, session));
    }
}

proof fn lemma_accepted_order(
    index: Seq<IndexModel>,
    scores: Seq<u32>,
    min_score: u32,
    theme: Option<Seq<char>>,
    session: Option<Seq<char>>,
    a: int,
    b: int,
)
    requires
        0 <= a < b < accepted(index, scores, min_score, theme, session).len(),
    ensures
        ({
            let found = accepted(index, scores, min_score, theme, session);
            exists|k: int, l: int|
                {
                    &&& 0 <= k < l < index.len()
                    &&& (#[trigger] index[k]).id == found[a].id
                    &&& scores[k] == found[a].score
                    &&& (#[trigger] index[l]).id == found[b].id
                    &&& scores[l] == found[b].score
                }
        }),
    decreases index.len(),
{
    let head = index.drop_last();
    let before = accepted(head, scores, min_score, theme, session);
    let found = accepted(index, scores, min_score, theme, session);
    if b < before.len() {
        lemma_accepted_order(head, scores, min_score, theme, session, a, b);
        let (k, l) = choose|k: int, l: int|
            {
                &&& 0 <= k < l < head.len()
                &&& (#[trigger] head[k]).id == before[a].id
                &&& scores[k] == before[a].score
                &&& (#[trigger] head[l]).id == before[b].id
                &&& scores[l] == before[b].score
            };
        assert(index[k].id == found[a].id && index[l].id == found[b].id);
    } else {
        assert(before.contains(before[a]));
        lemma_accepted_has(head, scores, min_score, theme, session, before[a]);
        let k = choose|k: int|
            0 <= k < head.len() && searched(#[trigger] head[k], theme, session) && single_at_least(
                scores[k],
                min_score,
            ) && before[a].score == scores[k] && before[a].id == head[k].id;
        assert(index[k].id == found[a].id && index[index.len() - 1].id == found[b].id);
    }
}

/// Hits whose scores are equal come in the order in which they stand in the index.
pub proof fn law_search_ties(
    index: Seq<IndexModel>,
    scores: Seq<u32>,
    min_score: u32,
    theme: Option<Seq<char>>,
    session: Option<Seq<char>>,
    a: int,
    b: int,
)
    requires
        0 <= a < b < search_hits(index, scores, min_score, theme, session).len(),
        single_key(search_hits(index, scores, min_score, theme, session)[a].score) == single_key(
            search_hits(index, scores, min_score, theme, session)[b].score,
        ),
    ensures
        ({
            let hits = search_hits(index, scores, min_score, theme, session);
            exists|k: int, l: int|
                {
                    &&& 0 <= k < l < index.len()
                    &&& (#[trigger] index[k]).id == hits[a].id
                    &&& scores[k] == hits[a].score
                    &&& (#[trigger] index[l]).id == hits[b].id
                    &&& scores[l] == hits[b].score
                }
        }),
{
    let hits = search_hits(index, scores, min_score, theme, session);
    let found = accepted(index, scores, min_score, theme, session);
    lemma_ranked_pair::<Hit>(found, a, b);
    assert(stands_before(found, hits[a], hits[b]));
    let (i, j) = choose|i: int, j: int|
        0 <= i < j < found.len() && #[trigger] found[i] == hits[a] && #[trigger] found[j]
            == hits[b];
    lemma_accepted_order(index, scores, min_score, theme, session, i, j);
}

/// Each entry of the index counts once: one entry more gives one hit more if the
/// filters let it through and its score reaches the least one, and none else.
pub proof fn law_search_hits_one_more(
    index: Seq<IndexModel>,
    e: IndexModel,
    scores: Seq<u32>,
    min_score: u32,
    theme: Option<Seq<char>>,
    session: Option<Seq<char>>,
)
    ensures
        search_hits(Seq::empty(), scores, min_score, theme, session).len() == 0,
        ({
            let score = scores[index.len() as int];
            let found = {
                &&& theme is None || e.theme == theme->0
                &&& session is None || e.session_id is None || e.session_id == session
                &&& !single_is_nan(score)
                &&& !single_is_nan(min_score)
                &&& single_key(score) >= single_key(min_score)
            };
            search_hits(index.push(e), scores, min_score, theme, session).len() == search_hits(
                index,
                scores,
                min_score,
                theme,
                session,
            ).len() + if found {
                1int
            } else {
                0
            }
        }),
{
    let all = index.push(e);
    assert(all.drop_last() =~= index);
    lemma_ranked_same_rows::<Hit>(accepted(index, scores, min_score, theme, session));
    lemma_ranked_same_rows::<Hit>(accepted(all, scores, min_score, theme, session));
    lemma_ranked_same_rows::<Hit>(accepted(Seq::empty(), scores, min_score, theme, session));
}

proof fn lemma_accepted_distinct(
    index: Seq<IndexModel>,
    scores: Seq<u32>,
    min_score: u32,
    theme: Option<Seq<char>>,
    session: Option<Seq<char>>,
)
    requires
        distinct(index, index_id()),
    ensures
        distinct(accepted(index, scores, min_score, theme, session), hit_id()),
    decreases index.len(),
{
    if index.len() > 0 {
        let head = index.drop_last();
        assert forall|i: int, j: int| 0 <= i < j < head.len() implies index_id()(
            #[trigger] head[i],
        ) != index_id()(#[trigger] head[j]) by {
            assert(index_id()(index[i]) != index_id()(index[j]));
        }
        lemma_accepted_distinct(head, scores, min_score, theme, session);
        let before = accepted(head, scores, min_score, theme, session);
        let all = accepted(index, scores, min_score, theme, session);
        assert forall|i: int, j: int| 0 <= i < j < all.len() implies hit_id()(#[trigger] all[i])
            != hit_id()(#[trigger] all[j]) by {
            if j < before.len() {
                assert(hit_id()(before[i]) != hit_id()(before[j]));
            } else {
                assert(before.contains(before[i]));
                lemma_accepted_has(head, scores, min_score, theme, session, before[i]);
                let k = choose|k: int| 0 <= k < head.len() && (#[trigger] head[k]).id
                    == before[i].id;
                assert(index_id()(index[k]) != index_id()(index[index.len() - 1]));
            }
        }
    }
}

/// If the index mirrors the entries, whose identifiers are unique, its own
/// identifiers are unique.
proof fn lemma_index_distinct(store: StoreModel)
    requires
        mirrors(store),
        unique_entries(store.entries),
    ensures
        distinct(store.index, index_id()),
{
    let all = index_all(store.entries);
    assert forall|i: int, j: int| 0 <= i < j < all.len() implies index_id()(#[trigger] all[i])
        != index_id()(#[trigger] all[j]) by {
        assert(store.entries[i].id != store.entries[j].id);
    }
    lemma_distinct_transfer(all, store.index, index_id());
}

proof fn lemma_hits_distinct(
    store: StoreModel,
    scores: Seq<u32>,
    min_score: u32,
    theme: Option<Seq<char>>,
    session: Option<Seq<char>>,
)
    requires
        mirrors(store),
        unique_entries(store.entries),
    ensures
        distinct(search_hits(store.index, scores, min_score, theme, session), hit_id()),
{
    lemma_index_distinct(store);
    lemma_accepted_distinct(store.index, scores, min_score, theme, session);
    let found = accepted(store.index, scores, min_score, theme, session);
    lemma_ranked_same_rows::<Hit>(found);
    lemma_distinct_transfer(found, ranked::<Hit>(found), hit_id());
}

/// The entry with an identifier is an entry, and has that identifier.
proof fn lemma_entry_with_id(entries: Seq<EntryModel>, id: Seq<char>)
    requires
        entry_with_id(entries, id) is Some,
    ensures
        entries.contains(entry_with_id(entries, id)->0),
        (entry_with_id(entries, id)->0).id == id,
    decreases entries.len(),
{
    if entries.last().id == id {
        assert(entries[entries.len() - 1] == entries.last());
    } else {
        let head = entries.drop_last();
        lemma_entry_with_id(head, id);
        let e = entry_with_id(entries, id)->0;
        let i = choose|i: int| 0 <= i < head.len() && head[i] == e;
        assert(entries[i] == e);
    }
}

/// If the index mirrors the entries, whose identifiers are unique, the entry of a
/// hit is the one of which the index holds the identifier.
proof fn lemma_entry_of_index(store: StoreModel, i: int)
    requires
        mirrors(store),
        unique_entries(store.entries),
        0 <= i < store.index.len(),
    ensures
        entry_with_id(store.entries, store.index[i].id) is Some,
        index_of(entry_with_id(store.entries, store.index[i].id)->0) == store.index[i],
{
    broadcast use vstd::seq_lib::group_to_multiset_ensures;

    let all = index_all(store.entries);
    let x = store.index[i];
    assert(store.index.contains(x));
    assert(all.to_multiset().count(x) > 0);
    assert(all.contains(x));
    let k = choose|k: int| 0 <= k < all.len() && all[k] == x;
    assert(store.entries[k].id == x.id);
    lemma_entry_absent(store.entries, x.id);
    lemma_entry_with_id(store.entries, x.id);
    let e = entry_with_id(store.entries, x.id)->0;
    let l = choose|l: int| 0 <= l < store.entries.len() && store.entries[l] == e;
    if k < l {
        assert(store.entries[k].id != store.entries[l].id);
    } else if l < k {
        assert(store.entries[l].id != store.entries[k].id);
    }
}

/// What is told of hits stands for hits, in their order.
proof fn lemma_found_in_order(hits: Seq<HitModel>, entries: Seq<EntryModel>)
    requires
        in_order::<Hit>(hits),
    ensures
        forall|a: int|
            0 <= a < found_entries(hits, entries).len() ==> told_of_hit(
                hits,
                entries,
                #[trigger] found_entries(hits, entries)[a],
            ),
        forall|a: int, b: int|
            0 <= a < b < found_entries(hits, entries).len() ==> single_key(
                (#[trigger] found_entries(hits, entries)[a]).score,
            ) >= single_key((#[trigger] found_entries(hits, entries)[b]).score),
    decreases hits.len(),
{
    if hits.len() > 0 {
        let head = hits.drop_last();
        let before = found_entries(head, entries);
        let all = found_entries(hits, entries);
        assert forall|i: int, j: int| 0 <= i < j < head.len() implies Hit::precedes(
            #[trigger] head[i],
            #[trigger] head[j],
        ) by {
            assert(Hit::precedes(hits[i], hits[j]));
        }
        lemma_found_in_order(head, entries);
        assert forall|a: int| 0 <= a < all.len() implies told_of_hit(
            hits,
            entries,
            #[trigger] all[a],
        ) by {
            if a < before.len() {
                assert(told_of_hit(head, entries, before[a]));
                let i = choose|i: int|
                    0 <= i < head.len() && entry_with_id(entries, (#[trigger] head[i]).id) is Some
                        && before[a] == found_entry(head[i], entry_with_id(entries, head[i].id)->0);
                assert(hits[i] == head[i]);
            } else {
                assert(hits[hits.len() - 1] == hits.last());
            }
        }
        assert forall|a: int, b: int| 0 <= a < b < all.len() implies single_key(
            (#[trigger] all[a]).score,
        ) >= single_key((#[trigger] all[b]).score) by {
            if b < before.len() {
                assert(single_key(before[a].score) >= single_key(before[b].score));
            } else {
                assert(told_of_hit(head, entries, before[a]));
                let i = choose|i: int|
                    0 <= i < head.len() && entry_with_id(entries, (#[trigger] head[i]).id) is Some
                        && before[a] == found_entry(head[i], entry_with_id(entries, head[i].id)->0);
                assert(Hit::precedes(hits[i], hits[hits.len() - 1]));
            }
        }
    }
}

/// Whether `found` is what `search` tells of one of the hits and its entry.
pub open spec fn told_of_hit(
    hits: Seq<HitModel>,
    entries: Seq<EntryModel>,
    found: FoundModel,
) -> bool {
    exists|i: int|
        0 <= i < hits.len() && entry_with_id(entries, (#[trigger] hits[i]).id) is Some && found
            == found_entry(hits[i], entry_with_id(entries, hits[i].id)->0)
}

proof fn lemma_window_order(hits: Seq<HitModel>, start: nat, count: nat)
    requires
        in_order::<Hit>(hits),
    ensures
        in_order::<Hit>(window(hits, start, count)),
        forall|i: int|
            0 <= i < window(hits, start, count).len() ==> hits.contains(
                #[trigger] window(hits, start, count)[i],
            ),
{
    let chosen = window(hits, start, count);
    let from = if hits.len() <= start {
        hits.len()
    } else {
        start
    };
    assert forall|i: int| 0 <= i < chosen.len() implies hits.contains(#[trigger] chosen[i]) by {
        assert(chosen[i] == hits[from + i]);
    }
    assert forall|i: int, j: int| 0 <= i < j < chosen.len() implies Hit::precedes(
        #[trigger] chosen[i],
        #[trigger] chosen[j],
    ) by {
        assert(chosen[i] == hits[from + i]);
        assert(chosen[j] == hits[from + j]);
    }
}

/// The results of a search that is not refused come best first, no more than asked
/// for. If the index mirrors the entries, each tells content, theme, time and session
/// of an entry, and the score that the index has for it; the score is a number that is
/// not less than the least one; the entry is of the theme asked for; and with a session
/// it belongs to that session or is global.
pub proof fn law_search_results(
    store: StoreModel,
    scores: Seq<u32>,
    top_k: nat,
    offset: nat,
    min_score: u32,
    theme: Option<Seq<char>>,
    session: Option<Seq<char>>,
)
    requires
        mirrors(store),
        unique_entries(store.entries),
        search_answer(store, scores, top_k, offset, min_score, theme, session) is Ok,
    ensures
        ({
            let answer = search_answer(store, scores, top_k, offset, min_score, theme, session);
            let results = answer->Ok_0;
            &&& results.len() <= top_k
            &&& forall|a: int, b: int|
                0 <= a < b < results.len() ==> single_key((#[trigger] results[a]).score)
                    >= single_key((#[trigger] results[b]).score)
            &&& forall|a: int|
                0 <= a < results.len() ==> {
                    &&& !single_is_nan((#[trigger] results[a]).score)
                    &&& !single_is_nan(min_score)
                    &&& single_key(results[a].score) >= single_key(min_score)
                    &&& theme is Some ==> results[a].theme == theme->0
                    &&& session is Some ==> results[a].session_id is None
                        || results[a].session_id == session
                    &&& exists|i: int, k: int|
                        {
                            &&& 0 <= i < store.index.len()
                            &&& 0 <= k < store.entries.len()
                            &&& (#[trigger] store.index[i]).id == (#[trigger] store.entries[k]).id
                            &&& results[a].score == scores[i]
                            &&& results[a].content == store.entries[k].content
                            &&& results[a].theme == store.entries[k].theme
                            &&& results[a].stored_at == store.entries[k].stored_at
                            &&& results[a].session_id == store.entries[k].session_id
                        }
                }
        }),
{
    let all = search_hits(store.index, scores, min_score, theme, session);
    let hits = window(all, offset, top_k);
    let results = found_entries(hits, store.entries);
    lemma_ranked_in_order::<Hit>(accepted(store.index, scores, min_score, theme, session));
    lemma_window_order(all, offset, top_k);
    lemma_found_in_order(hits, store.entries);
    lemma_found_len(hits, store.entries);
    assert forall|a: int| 0 <= a < results.len() implies {
        &&& !single_is_nan((#[trigger] results[a]).score)
        &&& !single_is_nan(min_score)
        &&& single_key(results[a].score) >= single_key(min_score)
        &&& theme is Some ==> results[a].theme == theme->0
        &&& session is Some ==> results[a].session_id is None || results[a].session_id == session
        &&& exists|i: int, k: int|
            {
                &&& 0 <= i < store.index.len()
                &&& 0 <= k < store.entries.len()
                &&& (#[trigger] store.index[i]).id == (#[trigger] store.entries[k]).id
                &&& results[a].score == scores[i]
                &&& results[a].content == store.entries[k].content
                &&& results[a].theme == store.entries[k].theme
                &&& results[a].stored_at == store.entries[k].stored_at
                &&& results[a].session_id == store.entries[k].session_id
            }
    } by {
        assert(told_of_hit(hits, store.entries, results[a]));
        let h = choose|h: int|
            0 <= h < hits.len() && entry_with_id(store.entries, (#[trigger] hits[h]).id) is Some
                && results[a] == found_entry(
                hits[h],
                entry_with_id(store.entries, hits[h].id)->0,
            );
        assert(all.contains(hits[h]));
        lemma_search_hits(store.index, scores, min_score, theme, session, hits[h]);
        let i = choose|i: int|
            0 <= i < store.index.len() && searched(#[trigger] store.index[i], theme, session)
                && single_at_least(scores[i], min_score) && hits[h].score == scores[i]
                && hits[h].id == store.index[i].id;
        lemma_entry_of_index(store, i);
        lemma_entry_with_id(store.entries, hits[h].id);
        let e = entry_with_id(store.entries, hits[h].id)->0;
        let k = choose|k: int| 0 <= k < store.entries.len() && store.entries[k] == e;
        assert(store.index[i].id == store.entries[k].id);
    }
}

proof fn lemma_found_len(hits: Seq<HitModel>, entries: Seq<EntryModel>)
    ensures
        found_entries(hits, entries).len() <= hits.len(),
    decreases hits.len(),
{
    if hits.len() > 0 {
        lemma_found_len(hits.drop_last(), entries);
    }
}

/// Where each hit has an entry and no two hits have the same identifier, each hit
/// is told of, in order.
proof fn lemma_found_all(hits: Seq<HitModel>, entries: Seq<EntryModel>)
    requires
        distinct(hits, hit_id()),
        forall|i: int|
            0 <= i < hits.len() ==> entry_with_id(entries, (#[trigger] hits[i]).id) is Some,
    ensures
        found_entries(hits, entries) == Seq::new(
            hits.len(),
            |i: int| found_entry(hits[i], entry_with_id(entries, hits[i].id)->0),
        ),
    decreases hits.len(),
{
    if hits.len() > 0 {
        let head = hits.drop_last();
        assert forall|i: int, j: int| 0 <= i < j < head.len() implies hit_id()(#[trigger] head[i])
            != hit_id()(#[trigger] head[j]) by {
            assert(hit_id()(hits[i]) != hit_id()(hits[j]));
        }
        assert forall|i: int| 0 <= i < head.len() implies entry_with_id(
            entries,
            (#[trigger] head[i]).id,
        ) is Some by {
            assert(head[i] == hits[i]);
        }
        lemma_found_all(head, entries);
        let last = hits.last();
        assert(entry_with_id(entries, hits[hits.len() - 1].id) is Some);
        assert(!hits_id(head, last.id)) by {
            if hits_id(head, last.id) {
                let i = choose|i: int| 0 <= i < head.len() && (#[trigger] head[i]).id == last.id;
                assert(hit_id()(hits[i]) != hit_id()(hits[hits.len() - 1]));
            }
        }
    }
    assert(found_entries(hits, entries) =~= Seq::new(
        hits.len(),
        |i: int| found_entry(hits[i], entry_with_id(entries, hits[i].id)->0),
    ));
}

proof fn lemma_search_tells(
    store: StoreModel,
    scores: Seq<u32>,
    top_k: nat,
    offset: nat,
    min_score: u32,
    theme: Option<Seq<char>>,
    session: Option<Seq<char>>,
)
    requires
        mirrors(store),
        unique_entries(store.entries),
        search_answer(store, scores, top_k, offset, min_score, theme, session) is Ok,
    ensures
        ({
            let hits = window(
                search_hits(store.index, scores, min_score, theme, session),
                offset,
                top_k,
            );
            let answer = search_answer(store, scores, top_k, offset, min_score, theme, session);
            answer->Ok_0 == Seq::new(
                hits.len(),
                |i: int| found_entry(hits[i], entry_with_id(store.entries, hits[i].id)->0),
            )
        }),
{
    let all = search_hits(store.index, scores, min_score, theme, session);
    let hits = window(all, offset, top_k);
    lemma_ranked_in_order::<Hit>(accepted(store.index, scores, min_score, theme, session));
    lemma_window_order(all, offset, top_k);
    lemma_hits_distinct(store, scores, min_score, theme, session);
    let from = if all.len() <= offset {
        all.len()
    } else {
        offset
    };
    assert forall|i: int, j: int| 0 <= i < j < hits.len() implies hit_id()(#[trigger] hits[i])
        != hit_id()(#[trigger] hits[j]) by {
        assert(hits[i] == all[from + i]);
        assert(hits[j] == all[from + j]);
    }
    assert forall|h: int| 0 <= h < hits.len() implies entry_with_id(
        store.entries,
        (#[trigger] hits[h]).id,
    ) is Some by {
        assert(all.contains(hits[h]));
        lemma_search_hits(store.index, scores, min_score, theme, session, hits[h]);
        let i = choose|i: int|
            0 <= i < store.index.len() && searched(#[trigger] store.index[i], theme, session)
                && single_at_least(scores[i], min_score) && hits[h].score == scores[i]
                && hits[h].id == store.index[i].id;
        lemma_entry_of_index(store, i);
    }
    lemma_found_all(hits, store.entries);
}

/// If the index mirrors the entries, a search that is not refused passes over `offset`
/// hits and tells of the next ones, as many as there are, but no more than `top_k`: of
/// each in its place, with its score, and with content, theme, time and session of its
/// entry.
pub proof fn law_search_tells_of_every_hit(
    store: StoreModel,
    scores: Seq<u32>,
    top_k: nat,
    offset: nat,
    min_score: u32,
    theme: Option<Seq<char>>,
    session: Option<Seq<char>>,
)
    requires
        mirrors(store),
        unique_entries(store.entries),
        search_answer(store, scores, top_k, offset, min_score, theme, session) is Ok,
    ensures
        ({
            let all = search_hits(store.index, scores, min_score, theme, session);
            let answer = search_answer(store, scores, top_k, offset, min_score, theme, session);
            let results = answer->Ok_0;
            &&& results.len() == if all.len() <= offset {
                0
            } else if all.len() - offset <= top_k {
                all.len() - offset
            } else {
                top_k as int
            }
            &&& forall|a: int|
                0 <= a < results.len() ==> {
                    &&& (#[trigger] results[a]).score == all[offset + a].score
                    &&& exists|k: int|
                        {
                            &&& 0 <= k < store.entries.len()
                            &&& (#[trigger] store.entries[k]).id == all[offset + a].id
                            &&& results[a].content == store.entries[k].content
                            &&& results[a].theme == store.entries[k].theme
                            &&& results[a].stored_at == store.entries[k].stored_at
                            &&& results[a].session_id == store.entries[k].session_id
                        }
                }
        }),
{
    let all = search_hits(store.index, scores, min_score, theme, session);
    let hits = window(all, offset, top_k);
    let results = found_entries(hits, store.entries);
    lemma_search_tells(store, scores, top_k, offset, min_score, theme, session);
    assert forall|a: int| 0 <= a < results.len() implies {
        &&& (#[trigger] results[a]).score == all[offset + a].score
        &&& exists|k: int|
            {
                &&& 0 <= k < store.entries.len()
                &&& (#[trigger] store.entries[k]).id == all[offset + a].id
                &&& results[a].content == store.entries[k].content
                &&& results[a].theme == store.entries[k].theme
                &&& results[a].stored_at == store.entries[k].stored_at
                &&& results[a].session_id == store.entries[k].session_id
            }
    } by {
        let hit = all[offset + a];
        assert(hits[a] == hit);
        assert(all.contains(hit));
        lemma_search_hits(store.index, scores, min_score, theme, session, hit);
        let i = choose|i: int|
            0 <= i < store.index.len() && searched(#[trigger] store.index[i], theme, session)
                && single_at_least(scores[i], min_score) && hit.score == scores[i] && hit.id
                == store.index[i].id;
        lemma_entry_of_index(store, i);
        lemma_entry_with_id(store.entries, hit.id);
        let e = entry_with_id(store.entries, hit.id)->0;
        let k = choose|k: int| 0 <= k < store.entries.len() && store.entries[k] == e;
        assert(store.entries[k].id == all[offset + a].id);
    }
}

/// If the index mirrors the entries, no two hits of a search are the same entry.
pub proof fn law_search_hits_differ(
    store: StoreModel,
    scores: Seq<u32>,
    min_score: u32,
    theme: Option<Seq<char>>,
    session: Option<Seq<char>>,
    i: int,
    j: int,
)
    requires
        mirrors(store),
        unique_entries(store.entries),
        0 <= i < j < search_hits(store.index, scores, min_score, theme, session).len(),
    ensures
        search_hits(store.index, scores, min_score, theme, session)[i].id != search_hits(
            store.index,
            scores,
            min_score,
            theme,
            session,
        )[j].id,
{
    lemma_hits_distinct(store, scores, min_score, theme, session);
    let hits = search_hits(store.index, scores, min_score, theme, session);
    assert(hit_id()(hits[i]) != hit_id()(hits[j]));
}

proof fn lemma_search_finds(
    store: StoreModel,
    scores: Seq<u32>,
    top_k: nat,
    min_score: u32,
    theme: Option<Seq<char>>,
    session: Option<Seq<char>>,
    i: int,
)
    requires
        mirrors(store),
        unique_entries(store.entries),
        search_answer(store, scores, top_k, 0, min_score, theme, session) is Ok,
        store.index.len() <= top_k,
        0 <= i < store.index.len(),
        searched(store.index[i], theme, session),
        single_at_least(scores[i], min_score),
    ensures
        ({
            let e = entry_with_id(store.entries, store.index[i].id);
            &&& e is Some
            &&& index_of(e->0) == store.index[i]
            &&& search_answer(store, scores, top_k, 0, min_score, theme, session)->Ok_0.contains(
                found_entry(HitModel { score: scores[i], id: store.index[i].id }, e->0),
            )
        }),
{
    let all = search_hits(store.index, scores, min_score, theme, session);
    let hits = window(all, 0, top_k);
    let hit = HitModel { score: scores[i], id: store.index[i].id };
    lemma_entry_of_index(store, i);
    lemma_search_hits(store.index, scores, min_score, theme, session, hit);
    lemma_search_tells(store, scores, top_k, 0, min_score, theme, session);
    lemma_ranked_same_rows::<Hit>(accepted(store.index, scores, min_score, theme, session));
    lemma_accepted_len(store.index, scores, min_score, theme, session);
    assert(hits =~= all);
    let k = choose|k: int| 0 <= k < all.len() && all[k] == hit;
    let results = found_entries(hits, store.entries);
    assert(results[k] == found_entry(hit, entry_with_id(store.entries, hit.id)->0));
}

/// Every entry of the index that the filters let through and whose score reaches the
/// least one is found, if the window is wide enough and the search is not refused: with
/// a session, global entries and entries of that session alike, with a theme or
/// without. What is told is its score, and content, theme, time and session of the
/// entry.
pub proof fn law_search_finds(
    store: StoreModel,
    scores: Seq<u32>,
    top_k: nat,
    min_score: u32,
    theme: Option<Seq<char>>,
    session: Option<Seq<char>>,
    i: int,
)
    requires
        mirrors(store),
        unique_entries(store.entries),
        search_answer(store, scores, top_k, 0, min_score, theme, session) is Ok,
        store.index.len() <= top_k,
        0 <= i < store.index.len(),
        theme is None || store.index[i].theme == theme->0,
        session is None || store.index[i].session_id is None || store.index[i].session_id
            == session,
        !single_is_nan(scores[i]),
        !single_is_nan(min_score),
        single_key(scores[i]) >= single_key(min_score),
    ensures
        ({
            let answer = search_answer(store, scores, top_k, 0, min_score, theme, session);
            let results = answer->Ok_0;
            exists|a: int, k: int|
                {
                    &&& 0 <= a < results.len()
                    &&& 0 <= k < store.entries.len()
                    &&& (#[trigger] store.entries[k]).id == store.index[i].id
                    &&& store.entries[k].theme == store.index[i].theme
                    &&& store.entries[k].session_id == store.index[i].session_id
                    &&& (#[trigger] results[a]).score == scores[i]
                    &&& results[a].content == store.entries[k].content
                    &&& results[a].theme == store.entries[k].theme
                    &&& results[a].stored_at == store.entries[k].stored_at
                    &&& results[a].session_id == store.entries[k].session_id
                }
        }),
{
    lemma_entry_of_index(store, i);
    lemma_search_finds(store, scores, top_k, min_score, theme, session, i);
    let id = store.index[i].id;
    lemma_entry_with_id(store.entries, id);
    let e = entry_with_id(store.entries, id)->0;
    let k = choose|k: int| 0 <= k < store.entries.len() && store.entries[k] == e;
    let told = found_entry(HitModel { score: scores[i], id }, e);
    let results = search_answer(store, scores, top_k, 0, min_score, theme, session)->Ok_0;
    let a = choose|a: int| 0 <= a < results.len() && results[a] == told;
    assert(store.entries[k].id == store.index[i].id && results[a].score == scores[i]);
}

/// Where identifiers are unique, the entry with an identifier is the one that has it.
proof fn lemma_entry_is(entries: Seq<EntryModel>, k: int)
    requires
        unique_entries(entries),
        0 <= k < entries.len(),
    ensures
        entry_with_id(entries, entries[k].id) == Some(entries[k]),
{
    lemma_entry_absent(entries, entries[k].id);
    lemma_entry_with_id(entries, entries[k].id);
    let e = entry_with_id(entries, entries[k].id)->0;
    let l = choose|l: int| 0 <= l < entries.len() && entries[l] == e;
    if k < l {
        assert(id_of_entry()(entries[k]) != id_of_entry()(entries[l]));
    } else if l < k {
        assert(id_of_entry()(entries[l]) != id_of_entry()(entries[k]));
    }
}

proof fn lemma_accepted_len(
    index: Seq<IndexModel>,
    scores: Seq<u32>,
    min_score: u32,
    theme: Option<Seq<char>>,
    session: Option<Seq<char>>,
)
    ensures
        accepted(index, scores, min_score, theme, session).len() <= index.len(),
    decreases index.len(),
{
    if index.len() > 0 {
        lemma_accepted_len(index.drop_last(), scores, min_score, theme, session);
    }
}

/// An entry is found, with the score that the index has for it, if it is in the index,
/// the filters let it through, its score reaches the least one, the window is wide
/// enough, and the search is not refused.
proof fn lemma_entry_is_found(
    store: StoreModel,
    scores: Seq<u32>,
    top_k: nat,
    min_score: u32,
    theme: Option<Seq<char>>,
    session: Option<Seq<char>>,
    i: int,
    e: EntryModel,
)
    requires
        mirrors(store),
        unique_entries(store.entries),
        search_answer(store, scores, top_k, 0, min_score, theme, session) is Ok,
        store.index.len() <= top_k,
        0 <= i < store.index.len(),
        store.index[i] == index_of(e),
        store.entries.contains(e),
        theme is None || e.theme == theme->0,
        session is None || e.session_id is None || e.session_id == session,
        single_at_least(scores[i], min_score),
    ensures
        ({
            let answer = search_answer(store, scores, top_k, 0, min_score, theme, session);
            let results = answer->Ok_0;
            exists|a: int|
                {
                    &&& 0 <= a < results.len()
                    &&& (#[trigger] results[a]).score == scores[i]
                    &&& results[a].content == e.content
                    &&& results[a].theme == e.theme
                    &&& results[a].stored_at == e.stored_at
                    &&& results[a].session_id == e.session_id
                }
        }),
{
    let k = choose|k: int| 0 <= k < store.entries.len() && store.entries[k] == e;
    lemma_entry_is(store.entries, k);
    lemma_search_finds(store, scores, top_k, min_score, theme, session, i);
    let told = found_entry(HitModel { score: scores[i], id: e.id }, e);
    let results = search_answer(store, scores, top_k, 0, min_score, theme, session)->Ok_0;
    let a = choose|a: int| 0 <= a < results.len() && results[a] == told;
    assert(results[a].score == scores[i]);
}

/// What was stored is found, with its content, theme, time and session, if the filters
/// let it through, its score reaches the least one, the window is wide enough, and the
/// search is not refused.
pub proof fn law_store_then_search(
    store: StoreModel,
    e: EntryModel,
    now: Seq<char>,
    scores: Seq<u32>,
    top_k: nat,
    min_score: u32,
    theme: Option<Seq<char>>,
    session: Option<Seq<char>>,
)
    requires
        mirrors(store),
        unique_entries(store.entries),
        search_answer(
            stored_store(store, e, now),
            scores,
            top_k,
            0,
            min_score,
            theme,
            session,
        ) is Ok,
        forall|i: int| 0 <= i < store.entries.len() ==> (#[trigger] store.entries[i]).id != e.id,
        store.index.len() < top_k,
        theme is None || e.theme == theme->0,
        session is None || e.session_id is None || e.session_id == session,
        !single_is_nan(scores[store.index.len() as int]),
        !single_is_nan(min_score),
        single_key(scores[store.index.len() as int]) >= single_key(min_score),
    ensures
        ({
            let answer = search_answer(
                stored_store(store, e, now),
                scores,
                top_k,
                0,
                min_score,
                theme,
                session,
            );
            let results = answer->Ok_0;
            exists|a: int|
                {
                    &&& 0 <= a < results.len()
                    &&& (#[trigger] results[a]).score == scores[store.index.len() as int]
                    &&& results[a].content == e.content
                    &&& results[a].theme == e.theme
                    &&& results[a].stored_at == e.stored_at
                    &&& results[a].session_id == e.session_id
                }
        }),
{
    let after = stored_store(store, e, now);
    lemma_entry_absent(store.entries, e.id);
    lemma_mirrors_push(store, after, e);
    lemma_unique_entries_push(store.entries, e);
    assert(after.entries[store.entries.len() as int] == e);
    let i = store.index.len() as int;
    lemma_entry_is_found(after, scores, top_k, min_score, theme, session, i, e);
}

/// After a replacement, everything that was not replaced is still found, in other
/// themes and in other sessions of the same theme, and so is the new entry; if the
/// filters let it through, the scores reach the least one, the window is wide
/// enough, and the search is not refused.
pub proof fn law_replace_then_search(
    store: StoreModel,
    theme: Seq<char>,
    session: Option<Seq<char>>,
    archived_at: u64,
    add: Option<EntryModel>,
    e: EntryModel,
    scores: Seq<u32>,
    top_k: nat,
    min_score: u32,
    asked_theme: Option<Seq<char>>,
    asked_session: Option<Seq<char>>,
)
    requires
        mirrors(store),
        unique_entries(store.entries),
        search_answer(
            replaced_store(store, theme, session, archived_at, add),
            scores,
            top_k,
            0,
            min_score,
            asked_theme,
            asked_session,
        ) is Ok,
        add matches Some(new) ==> forall|i: int|
            0 <= i < store.entries.len() && (#[trigger] store.entries[i]).id == new.id
                ==> store.entries[i].theme == theme && store.entries[i].session_id == session,
        add == Some(e) || (store.entries.contains(e) && (e.theme != theme || e.session_id
            != session)),
        asked_theme is None || e.theme == asked_theme->0,
        asked_session is None || e.session_id is None || e.session_id == asked_session,
        replaced_store(store, theme, session, archived_at, add).index.len() <= top_k,
        !single_is_nan(min_score),
        forall|i: int|
            0 <= i < replaced_store(store, theme, session, archived_at, add).index.len()
                ==> !single_is_nan(#[trigger] scores[i]) && single_key(scores[i]) >= single_key(
                min_score,
            ),
    ensures
        ({
            let answer = search_answer(
                replaced_store(store, theme, session, archived_at, add),
                scores,
                top_k,
                0,
                min_score,
                asked_theme,
                asked_session,
            );
            let results = answer->Ok_0;
            exists|a: int|
                {
                    &&& 0 <= a < results.len()
                    &&& (#[trigger] results[a]).content == e.content
                    &&& results[a].theme == e.theme
                    &&& results[a].stored_at == e.stored_at
                    &&& results[a].session_id == e.session_id
                }
        }),
{
    broadcast use vstd::seq_lib::group_to_multiset_ensures;

    let after = replaced_store(store, theme, session, archived_at, add);
    let left = store.entries.filter(inactive(theme, session));
    lemma_replaced_mirrors(store, theme, session, archived_at, add);
    lemma_distinct_filter(store.entries, inactive(theme, session), id_of_entry());
    if let Some(new) = add {
        assert forall|i: int| 0 <= i < left.len() implies (#[trigger] left[i]).id != new.id by {
            assert(left.contains(left[i]));
            lemma_filter_has(store.entries, inactive(theme, session), left[i]);
            let j = choose|j: int| 0 <= j < store.entries.len() && store.entries[j] == left[i];
            assert(store.entries[j] == left[i]);
        }
        lemma_entry_absent(left, new.id);
        lemma_unique_entries_push(left, new);
    }
    assert(after.entries.contains(e)) by {
        if add == Some(e) {
            assert(after.entries[left.len() as int] == e);
        } else {
            lemma_filter_has(store.entries, inactive(theme, session), e);
            let k = choose|k: int| 0 <= k < left.len() && left[k] == e;
            assert(after.entries[k] == e);
        }
    }
    let k = choose|k: int| 0 <= k < after.entries.len() && after.entries[k] == e;
    let all = index_all(after.entries);
    assert(all[k] == index_of(e));
    assert(all.contains(index_of(e)));
    assert(all.to_multiset().count(index_of(e)) > 0);
    assert(after.index.contains(index_of(e)));
    let i = choose|i: int| 0 <= i < after.index.len() && after.index[i] == index_of(e);
    assert(!single_is_nan(scores[i]));
    lemma_entry_is_found(after, scores, top_k, min_score, asked_theme, asked_session, i, e);
    let results = search_answer(
        after,
        scores,
        top_k,
        0,
        min_score,
        asked_theme,
        asked_session,
    )->Ok_0;
    let a = choose|a: int|
        {
            &&& 0 <= a < results.len()
            &&& (#[trigger] results[a]).score == scores[i]
            &&& results[a].content == e.content
            &&& results[a].theme == e.theme
            &&& results[a].stored_at == e.stored_at
            &&& results[a].session_id == e.session_id
        };
    assert(results[a].content == e.content);
}

/// After a theme was deleted, a search in that theme finds nothing.
pub proof fn law_delete_then_search(
    store: StoreModel,
    theme: Seq<char>,
    scores: Seq<u32>,
    min_score: u32,
    session: Option<Seq<char>>,
)
    ensures
        search_hits(deleted_store(store, theme).index, scores, min_score, Some(theme), session)
            == Seq::<HitModel>::empty(),
{
    let index = deleted_store(store, theme).index;
    let hits = search_hits(index, scores, min_score, Some(theme), session);
    if hits.len() > 0 {
        assert(hits.contains(hits[0]));
        lemma_search_hits(index, scores, min_score, Some(theme), session, hits[0]);
        let i = choose|i: int|
            0 <= i < index.len() && searched(#[trigger] index[i], Some(theme), session);
        assert(index.contains(index[i]));
        lemma_filter_has(store.index, of_other_themes(theme), index[i]);
    }
    assert(hits =~= Seq::empty());
}

/// A search is refused exactly if it would tell of more hits than the database takes in
/// one query, so never if it asks for no more than that; the reason is that of the
/// database. Else the answer is what it tells of those hits.
pub proof fn law_search_refused(
    store: StoreModel,
    scores: Seq<u32>,
    top_k: nat,
    offset: nat,
    min_score: u32,
    theme: Option<Seq<char>>,
    session: Option<Seq<char>>,
)
    ensures
        ({
            let all = search_hits(store.index, scores, min_score, theme, session);
            let answer = search_answer(store, scores, top_k, offset, min_score, theme, session);
            &&& answer is Err <==> top_k > 32_766 && all.len() - offset > 32_766
            &&& answer matches Err(reason) ==> reason == "too many SQL variables"@
            &&& answer matches Ok(results) ==> results == found_entries(
                window(all, offset, top_k),
                store.entries,
            )
        }),
{
}

/// Two windows, one behind the other, make one wide window.
pub proof fn law_windows_join<V>(rows: Seq<V>, start: nat, first: nat, second: nat)
    ensures
        window(rows, start, first) + window(rows, start + first, second) == window(
            rows,
            start,
            first + second,
        ),
{
    assert(window(rows, start, first) + window(rows, start + first, second) =~= window(
        rows,
        start,
        first + second,
    ));
}

/// Pages of a search, one behind the other, make one long page, if that one is not
/// refused.
pub proof fn law_search_pages_join(
    store: StoreModel,
    scores: Seq<u32>,
    first: nat,
    second: nat,
    offset: nat,
    min_score: u32,
    theme: Option<Seq<char>>,
    session: Option<Seq<char>>,
)
    requires
        mirrors(store),
        unique_entries(store.entries),
        search_answer(store, scores, first + second, offset, min_score, theme, session) is Ok,
    ensures
        ({
            let a = search_answer(store, scores, first, offset, min_score, theme, session);
            let b = search_answer(
                store,
                scores,
                second,
                offset + first,
                min_score,
                theme,
                session,
            );
            let c = search_answer(
                store,
                scores,
                first + second,
                offset,
                min_score,
                theme,
                session,
            );
            a is Ok && b is Ok && a->Ok_0 + b->Ok_0 == c->Ok_0
        }),
{
    let all = search_hits(store.index, scores, min_score, theme, session);
    law_windows_join(all, offset, first, second);
    lemma_search_tells(store, scores, first, offset, min_score, theme, session);
    lemma_search_tells(
        store,
        scores,
        second,
        offset + first,
        min_score,
        theme,
        session,
    );
    lemma_search_tells(
        store,
        scores,
        first + second,
        offset,
        min_score,
        theme,
        session,
    );
    let a = window(all, offset, first);
    let b = window(all, offset + first, second);
    let c = window(all, offset, first + second);
    assert(c == a + b);
    assert(found_entries(a, store.entries) + found_entries(b, store.entries) =~= found_entries(
        c,
        store.entries,
    ));
}

/// What is told of hits: of one hit more, content, theme, time and session of its entry
/// and its own score, behind what is told of the others; but nothing if there is no
/// such entry, or if it was told of already.
pub proof fn law_found_one_more(hits: Seq<HitModel>, hit: HitModel, entries: Seq<EntryModel>)
    requires
        unique_entries(entries),
    ensures
        found_entries(Seq::empty(), entries).len() == 0,
        ({
            let before = found_entries(hits, entries);
            let after = found_entries(hits.push(hit), entries);
            &&& (forall|k: int| 0 <= k < entries.len() ==> (#[trigger] entries[k]).id != hit.id)
                || (exists|i: int| 0 <= i < hits.len() && (#[trigger] hits[i]).id == hit.id)
                ==> after == before
            &&& forall|k: int|
                0 <= k < entries.len() && (#[trigger] entries[k]).id == hit.id && !(exists|i: int|
                    0 <= i < hits.len() && (#[trigger] hits[i]).id == hit.id) ==> {
                    &&& after.len() == before.len() + 1
                    &&& after.drop_last() == before
                    &&& after.last().score == hit.score
                    &&& after.last().content == entries[k].content
                    &&& after.last().theme == entries[k].theme
                    &&& after.last().stored_at == entries[k].stored_at
                    &&& after.last().session_id == entries[k].session_id
                }
        }),
{
    let all = hits.push(hit);
    let before = found_entries(hits, entries);
    let after = found_entries(all, entries);
    assert(all.drop_last() =~= hits);
    lemma_entry_absent(entries, hit.id);
    assert forall|k: int|
        0 <= k < entries.len() && (#[trigger] entries[k]).id == hit.id && !(exists|i: int|
            0 <= i < hits.len() && (#[trigger] hits[i]).id == hit.id) implies {
        &&& after.len() == before.len() + 1
        &&& after.drop_last() == before
        &&& after.last().score == hit.score
        &&& after.last().content == entries[k].content
        &&& after.last().theme == entries[k].theme
        &&& after.last().stored_at == entries[k].stored_at
        &&& after.last().session_id == entries[k].session_id
    } by {
        lemma_entry_is(entries, k);
        assert(after.drop_last() =~= before);
    }
}

/// A window holds the rows behind those that it passes over, as many as there are, but
/// no more than it asks for.
pub proof fn law_window<V>(rows: Seq<V>, start: nat, count: nat)
    ensures
        window(rows, start, count).len() == if rows.len() <= start {
            0
        } else if rows.len() - start <= count {
            rows.len() - start
        } else {
            count as int
        },
        forall|i: int|
            0 <= i < window(rows, start, count).len() ==> #[trigger] window(rows, start, count)[i]
                == rows[start + i],
{
}

} // verus!
