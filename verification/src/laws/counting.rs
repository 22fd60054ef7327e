//! Laws of `list` and `status`.

use crate::calendar::date_time_text;
use crate::index::{dimension_of, is_histogram, of_dimension, DimensionCount, IndexModel};
use crate::laws::consistency::one_dimension;
use crate::listing::{
    distinct_themes, latest_time, lemma_distinct_themes, listed, of_theme, theme_summaries,
    theme_summary, ThemeModel,
};
use crate::numbers::{double_key, double_whole};
use crate::rows::{
    lemma_filter_has, lemma_filter_push, lemma_filter_same, lemma_filter_twice,
    lemma_ranked_contains, lemma_ranked_in_order, lemma_ranked_same_rows, ranked, Ranked,
};
use crate::tables::EntryModel;
use crate::text::text_le;
use crate::writing::dimension_error;
use vstd::prelude::*;

verus! {

/// The entries of all the themes together.
pub open spec fn total_entries(themes: Seq<ThemeModel>) -> nat
    decreases themes.len(),
{
    if themes.len() == 0 {
        0
    } else {
        total_entries(themes.drop_last()) + themes.last().entries
    }
}

/// The vectors of all the dimensions together.
pub open spec fn total_vectors(counts: Seq<DimensionCount>) -> nat
    decreases counts.len(),
{
    if counts.len() == 0 {
        0
    } else {
        total_vectors(counts.drop_last()) + counts.last().count as nat
    }
}

/// How many entries the themes have together.
spec fn entries_of(themes: Seq<Seq<char>>, entries: Seq<EntryModel>) -> nat
    decreases themes.len(),
{
    if themes.len() == 0 {
        0
    } else {
        entries_of(themes.drop_last(), entries) + entries.filter(of_theme(themes.last())).len()
    }
}

proof fn lemma_entries_of_push(themes: Seq<Seq<char>>, entries: Seq<EntryModel>, e: EntryModel)
    requires
        themes.no_duplicates(),
    ensures
        entries_of(themes, entries.push(e)) == entries_of(themes, entries) + if themes.contains(
            e.theme,
        ) {
            1nat
        } else {
            0nat
        },
    decreases themes.len(),
{
    if themes.len() > 0 {
        let head = themes.drop_last();
        let last = themes.last();
        lemma_entries_of_push(head, entries, e);
        lemma_filter_push(entries, e, of_theme(last));
        assert(themes.contains(e.theme) <==> head.contains(e.theme) || last == e.theme) by {
            if head.contains(e.theme) {
                let i = choose|i: int| 0 <= i < head.len() && head[i] == e.theme;
                assert(themes[i] == e.theme);
            }
            if last == e.theme {
                assert(themes[themes.len() - 1] == e.theme);
            }
            if themes.contains(e.theme) {
                let i = choose|i: int| 0 <= i < themes.len() && themes[i] == e.theme;
                if i < head.len() {
                    assert(head[i] == e.theme);
                }
            }
        }
        if last == e.theme && head.contains(e.theme) {
            let i = choose|i: int| 0 <= i < head.len() && head[i] == e.theme;
            assert(themes[i] == themes[themes.len() - 1]);
        }
    }
}

proof fn lemma_entries_of_all(themes: Seq<Seq<char>>, entries: Seq<EntryModel>)
    requires
        themes.no_duplicates(),
        forall|i: int| 0 <= i < entries.len() ==> themes.contains((#[trigger] entries[i]).theme),
    ensures
        entries_of(themes, entries) == entries.len(),
    decreases entries.len(),
{
    if entries.len() > 0 {
        let head = entries.drop_last();
        assert forall|i: int| 0 <= i < head.len() implies themes.contains(
            (#[trigger] head[i]).theme,
        ) by {
            assert(head[i] == entries[i]);
        }
        lemma_entries_of_all(themes, head);
        assert(entries =~= head.push(entries.last()));
        assert(themes.contains(entries[entries.len() - 1].theme));
        lemma_entries_of_push(themes, head, entries.last());
    } else {
        lemma_entries_of_none(themes, entries);
    }
}

proof fn lemma_entries_of_none(themes: Seq<Seq<char>>, entries: Seq<EntryModel>)
    requires
        entries.len() == 0,
    ensures
        entries_of(themes, entries) == 0,
    decreases themes.len(),
{
    reveal(Seq::filter);
    if themes.len() > 0 {
        lemma_entries_of_none(themes.drop_last(), entries);
    }
}

proof fn lemma_total_entries(themes: Seq<Seq<char>>, entries: Seq<EntryModel>)
    ensures
        total_entries(Seq::new(themes.len(), |i: int| theme_summary(entries, themes[i])))
            == entries_of(themes, entries),
    decreases themes.len(),
{
    let all = Seq::new(themes.len(), |i: int| theme_summary(entries, themes[i]));
    if themes.len() > 0 {
        let head = themes.drop_last();
        lemma_total_entries(head, entries);
        assert(all.drop_last() =~= Seq::new(
            head.len(),
            |i: int| theme_summary(entries, head[i]),
        ));
    }
}

/// The themes are listed in the order of their names, each once, and their
/// entries are all the entries that are looked at.
pub proof fn law_list_covers_entries(entries: Seq<EntryModel>)
    ensures
        forall|i: int, j: int|
            0 <= i < j < theme_summaries(entries).len() ==> text_le(
                (#[trigger] theme_summaries(entries)[i]).theme,
                (#[trigger] theme_summaries(entries)[j]).theme,
            ) && theme_summaries(entries)[i].theme != theme_summaries(entries)[j].theme,
        theme_summaries(entries).len() == distinct_themes(entries).len(),
        total_entries(theme_summaries(entries)) == entries.len(),
{
    broadcast use vstd::seq_lib::group_to_multiset_ensures;

    let names = distinct_themes(entries);
    let order = ranked::<String>(names);
    lemma_ranked_same_rows::<String>(names);
    lemma_ranked_in_order::<String>(names);
    lemma_distinct_themes(entries, Seq::empty());
    names.lemma_multiset_has_no_duplicates();
    order.lemma_multiset_has_no_duplicates_conv();
    assert forall|i: int| 0 <= i < entries.len() implies order.contains(
        (#[trigger] entries[i]).theme,
    ) by {
        lemma_distinct_themes(entries, entries[i].theme);
        lemma_ranked_contains::<String>(names, entries[i].theme);
    }
    lemma_entries_of_all(order, entries);
    lemma_total_entries(order, entries);
    assert(theme_summaries(entries) =~= Seq::new(
        order.len(),
        |i: int| theme_summary(entries, order[i]),
    ));
    assert forall|i: int, j: int| 0 <= i < j < theme_summaries(entries).len() implies text_le(
        (#[trigger] theme_summaries(entries)[i]).theme,
        (#[trigger] theme_summaries(entries)[j]).theme,
    ) && theme_summaries(entries)[i].theme != theme_summaries(entries)[j].theme by {
        assert(String::precedes(order[i], order[j]));
        assert(order[i] != order[j]);
    }
}

/// A theme is listed exactly if an entry of it can be seen: any entry, or with a
/// session a global one or one of that session.
pub proof fn law_list_scope(
    entries: Seq<EntryModel>,
    session: Option<Seq<char>>,
    theme: Seq<char>,
)
    ensures
        (exists|i: int|
            0 <= i < theme_summaries(entries.filter(listed(session))).len() && (
            #[trigger] theme_summaries(entries.filter(listed(session)))[i]).theme == theme)
            <==> exists|k: int|
            0 <= k < entries.len() && (#[trigger] entries[k]).theme == theme && (session is None
                || entries[k].session_id is None || entries[k].session_id == session),
{
    let rows = entries.filter(listed(session));
    let names = distinct_themes(rows);
    let order = ranked::<String>(names);
    let summaries = theme_summaries(rows);
    lemma_distinct_themes(rows, theme);
    lemma_ranked_contains::<String>(names, theme);
    if exists|i: int| 0 <= i < summaries.len() && (#[trigger] summaries[i]).theme == theme {
        let i = choose|i: int| 0 <= i < summaries.len() && (#[trigger] summaries[i]).theme == theme;
        assert(order[i] == theme);
        assert(order.contains(theme));
        let r = choose|r: int| 0 <= r < rows.len() && (#[trigger] rows[r]).theme == theme;
        assert(rows.contains(rows[r]));
        lemma_filter_has(entries, listed(session), rows[r]);
        let k = choose|k: int| 0 <= k < entries.len() && entries[k] == rows[r];
        assert(entries[k].theme == theme);
    }
    if exists|k: int|
        0 <= k < entries.len() && (#[trigger] entries[k]).theme == theme && (session is None
            || entries[k].session_id is None || entries[k].session_id == session) {
        let k = choose|k: int|
            0 <= k < entries.len() && (#[trigger] entries[k]).theme == theme && (session is None
                || entries[k].session_id is None || entries[k].session_id == session);
        assert(entries.contains(entries[k]));
        lemma_filter_has(entries, listed(session), entries[k]);
        let r = choose|r: int| 0 <= r < rows.len() && rows[r] == entries[k];
        assert(rows[r].theme == theme);
        let i = choose|i: int| 0 <= i < order.len() && order[i] == theme;
        assert(summaries[i].theme == theme);
    }
}

/// The latest time is that of an entry, and none was stored later.
pub proof fn law_latest_time(entries: Seq<EntryModel>)
    requires
        entries.len() > 0,
    ensures
        exists|i: int|
            0 <= i < entries.len() && (#[trigger] entries[i]).stored_at == latest_time(entries),
        forall|i: int|
            0 <= i < entries.len() ==> double_key((#[trigger] entries[i]).stored_at) <= double_key(
                latest_time(entries),
            ),
    decreases entries.len(),
{
    if entries.len() == 1 {
        assert(entries[0].stored_at == latest_time(entries));
    } else {
        let head = entries.drop_last();
        law_latest_time(head);
        let i = choose|i: int|
            0 <= i < head.len() && (#[trigger] head[i]).stored_at == latest_time(head);
        assert(entries[i].stored_at == latest_time(head));
        assert(entries[entries.len() - 1].stored_at == entries.last().stored_at);
        assert forall|k: int| 0 <= k < entries.len() implies double_key(
            (#[trigger] entries[k]).stored_at,
        ) <= double_key(latest_time(entries)) by {
            if k < head.len() {
                assert(head[k] == entries[k]);
            }
        }
    }
}

/// How many vectors the dimensions that are counted have together.
spec fn vectors_of(counts: Seq<DimensionCount>, index: Seq<IndexModel>) -> nat
    decreases counts.len(),
{
    if counts.len() == 0 {
        0
    } else {
        vectors_of(counts.drop_last(), index) + index.filter(
            of_dimension(counts.last().dimension as nat),
        ).len()
    }
}

proof fn lemma_vectors_of_push(counts: Seq<DimensionCount>, index: Seq<IndexModel>, e: IndexModel)
    requires
        forall|i: int, j: int|
            0 <= i < j < counts.len() ==> (#[trigger] counts[i]).dimension < (
            #[trigger] counts[j]).dimension,
    ensures
        vectors_of(counts, index.push(e)) == vectors_of(counts, index) + if exists|i: int|
            0 <= i < counts.len() && (#[trigger] counts[i]).dimension == e.vector.len() {
            1nat
        } else {
            0nat
        },
    decreases counts.len(),
{
    if counts.len() > 0 {
        let head = counts.drop_last();
        let last = counts.last();
        assert forall|i: int, j: int| 0 <= i < j < head.len() implies (
        #[trigger] head[i]).dimension < (#[trigger] head[j]).dimension by {
            assert(counts[i].dimension < counts[j].dimension);
        }
        lemma_vectors_of_push(head, index, e);
        lemma_filter_push(index, e, of_dimension(last.dimension as nat));
        let n = e.vector.len();
        if exists|i: int| 0 <= i < head.len() && (#[trigger] head[i]).dimension == n {
            let i = choose|i: int| 0 <= i < head.len() && (#[trigger] head[i]).dimension == n;
            assert(counts[i].dimension == n);
            assert(counts[i].dimension < counts[counts.len() - 1].dimension);
        }
        if last.dimension == n {
            assert(counts[counts.len() - 1].dimension == n);
        }
        if exists|i: int| 0 <= i < counts.len() && (#[trigger] counts[i]).dimension == n {
            let i = choose|i: int| 0 <= i < counts.len() && (#[trigger] counts[i]).dimension == n;
            if i < head.len() {
                assert(head[i].dimension == n);
            }
        }
    }
}

proof fn lemma_vectors_of_all(counts: Seq<DimensionCount>, index: Seq<IndexModel>)
    requires
        forall|i: int, j: int|
            0 <= i < j < counts.len() ==> (#[trigger] counts[i]).dimension < (
            #[trigger] counts[j]).dimension,
        forall|k: int|
            0 <= k < index.len() ==> exists|i: int|
                0 <= i < counts.len() && (#[trigger] counts[i]).dimension == (
                #[trigger] index[k]).vector.len(),
    ensures
        vectors_of(counts, index) == index.len(),
    decreases index.len(),
{
    if index.len() > 0 {
        let head = index.drop_last();
        assert forall|k: int| 0 <= k < head.len() implies exists|i: int|
            0 <= i < counts.len() && (#[trigger] counts[i]).dimension == (
            #[trigger] head[k]).vector.len() by {
            assert(head[k] == index[k]);
        }
        lemma_vectors_of_all(counts, head);
        assert(index =~= head.push(index.last()));
        assert(index[index.len() - 1] == index.last());
        lemma_vectors_of_push(counts, head, index.last());
    } else {
        lemma_vectors_of_none(counts, index);
    }
}

proof fn lemma_vectors_of_none(counts: Seq<DimensionCount>, index: Seq<IndexModel>)
    requires
        index.len() == 0,
    ensures
        vectors_of(counts, index) == 0,
    decreases counts.len(),
{
    reveal(Seq::filter);
    if counts.len() > 0 {
        lemma_vectors_of_none(counts.drop_last(), index);
    }
}

proof fn lemma_total_vectors(counts: Seq<DimensionCount>, index: Seq<IndexModel>)
    requires
        forall|i: int|
            0 <= i < counts.len() ==> (#[trigger] counts[i]).count == index.filter(
                of_dimension(counts[i].dimension as nat),
            ).len(),
    ensures
        total_vectors(counts) == vectors_of(counts, index),
    decreases counts.len(),
{
    if counts.len() > 0 {
        let head = counts.drop_last();
        assert forall|i: int| 0 <= i < head.len() implies (#[trigger] head[i]).count
            == index.filter(of_dimension(head[i].dimension as nat)).len() by {
            assert(head[i] == counts[i]);
        }
        lemma_total_vectors(head, index);
        assert(counts[counts.len() - 1] == counts.last());
    }
}

/// The histogram counts every vector of the index once.
pub proof fn law_histogram_counts_all(counts: Seq<DimensionCount>, index: Seq<IndexModel>)
    requires
        is_histogram(counts, index),
    ensures
        total_vectors(counts) == index.len(),
{
    lemma_vectors_of_all(counts, index);
    lemma_total_vectors(counts, index);
}

/// If all vectors have one dimension, the histogram has that one alone.
pub proof fn law_histogram_of_one_dimension(counts: Seq<DimensionCount>, index: Seq<IndexModel>)
    requires
        is_histogram(counts, index),
        one_dimension(index),
        index.len() > 0,
    ensures
        counts.len() == 1,
        counts[0].dimension == dimension_of(index),
        counts[0].count == index.len(),
{
    assert forall|i: int| 0 <= i < counts.len() implies (#[trigger] counts[i]).dimension
        == index[0].vector.len() by {
        let pred = of_dimension(counts[i].dimension as nat);
        let own = index.filter(pred);
        assert(own.contains(own[0]));
        lemma_filter_has(index, pred, own[0]);
        let k = choose|k: int| 0 <= k < index.len() && index[k] == own[0];
        assert(index[k].vector.len() == index[0].vector.len());
    }
    assert(index[0].vector.len() == dimension_of(index));
    let i = choose|i: int|
        0 <= i < counts.len() && (#[trigger] counts[i]).dimension == index[0].vector.len();
    if counts.len() > 1 {
        assert(counts[0].dimension < counts[1].dimension);
    }
    law_histogram_counts_all(counts, index);
    assert(counts.drop_last() =~= Seq::empty());
    assert(total_vectors(counts.drop_last()) == 0);
}

/// Whatever is wrong with the dimension of a vector, the reason given starts the
/// same way.
pub proof fn law_dimension_error_text(index: Seq<IndexModel>, dimension: nat)
    requires
        dimension_error(index, dimension) is Some,
    ensures
        "dimension mismatch: "@.is_prefix_of(dimension_error(index, dimension)->0),
{
    reveal_strlit("dimension mismatch: ");
    reveal_strlit("dimension mismatch: the vector is empty");
    reveal_strlit("dimension mismatch: the index has dimension ");
    reveal_strlit(", the vector has dimension ");
    let reason = dimension_error(index, dimension)->0;
    assert("dimension mismatch: "@ =~= reason.subrange(0, 20));
}

/// For each theme listed, the number of entries is that of the entries of the theme that
/// can be seen, and there is one; the time of the last change is the whole seconds of
/// the time at which one of them was stored, written out, and none of them was stored
/// later. With a session, global entries and those of that session can be seen.
pub proof fn law_list_summary(entries: Seq<EntryModel>, session: Option<Seq<char>>, i: int)
    requires
        0 <= i < theme_summaries(entries.filter(listed(session))).len(),
    ensures
        ({
            let summary = theme_summaries(entries.filter(listed(session)))[i];
            let own = entries.filter(
                |e: EntryModel|
                    e.theme == summary.theme && (session is None || e.session_id is None
                        || e.session_id == session),
            );
            &&& summary.entries == own.len()
            &&& summary.entries > 0
            &&& exists|k: int|
                {
                    &&& 0 <= k < entries.len()
                    &&& (#[trigger] entries[k]).theme == summary.theme
                    &&& session is None || entries[k].session_id is None || entries[k].session_id
                        == session
                    &&& summary.last_modified == date_time_text(
                        double_whole(entries[k].stored_at) as nat,
                        ' ',
                    )
                    &&& forall|j: int|
                        0 <= j < entries.len() && (#[trigger] entries[j]).theme == summary.theme
                            && (session is None || entries[j].session_id is None
                            || entries[j].session_id == session) ==> double_key(
                            entries[j].stored_at,
                        ) <= double_key(entries[k].stored_at)
                }
        }),
{
    let rows = entries.filter(listed(session));
    let names = distinct_themes(rows);
    let order = ranked::<String>(names);
    let theme = order[i];
    let summary = theme_summaries(rows)[i];
    assert(summary == theme_summary(rows, theme));
    let both = |e: EntryModel|
        e.theme == theme && (session is None || e.session_id is None || e.session_id == session);
    lemma_filter_twice(entries, listed(session), of_theme(theme), both);
    lemma_filter_same(
        entries,
        both,
        |e: EntryModel|
            e.theme == summary.theme && (session is None || e.session_id is None || e.session_id
                == session),
    );
    let own = rows.filter(of_theme(theme));
    assert(own == entries.filter(both));
    assert(order.contains(theme));
    lemma_ranked_contains::<String>(names, theme);
    lemma_distinct_themes(rows, theme);
    let r = choose|r: int| 0 <= r < rows.len() && (#[trigger] rows[r]).theme == theme;
    assert(rows.contains(rows[r]));
    lemma_filter_has(rows, of_theme(theme), rows[r]);
    law_latest_time(own);
    let x = choose|x: int|
        0 <= x < own.len() && (#[trigger] own[x]).stored_at == latest_time(own);
    assert(own.contains(own[x]));
    lemma_filter_has(entries, both, own[x]);
    let k = choose|k: int| 0 <= k < entries.len() && entries[k] == own[x];
    assert forall|j: int|
        0 <= j < entries.len() && (#[trigger] entries[j]).theme == summary.theme && (session is None
            || entries[j].session_id is None || entries[j].session_id
            == session) implies double_key(entries[j].stored_at) <= double_key(
        entries[k].stored_at,
    ) by {
        assert(entries.contains(entries[j]));
        lemma_filter_has(entries, both, entries[j]);
        let y = choose|y: int| 0 <= y < own.len() && own[y] == entries[j];
        assert(double_key(own[y].stored_at) <= double_key(latest_time(own)));
    }
    assert(entries[k].theme == summary.theme);
}

/// Each theme counts once: an entry more counts for one theme more exactly if no entry
/// had its theme.
pub proof fn law_themes_counted(entries: Seq<EntryModel>, e: EntryModel)
    ensures
        distinct_themes(Seq::empty()).len() == 0,
        distinct_themes(entries.push(e)).len() == distinct_themes(entries).len() + if exists|
            i: int,
        |
            0 <= i < entries.len() && (#[trigger] entries[i]).theme == e.theme {
            0int
        } else {
            1
        },
{
    lemma_distinct_themes(entries, e.theme);
    assert(entries.push(e).drop_last() =~= entries);
}

/// The dimension that is told is that of the first vector, and zero if there is none;
/// the histogram has each dimension that occurs, in ascending order, with the number of
/// vectors that have it.
pub proof fn law_dimensions_told(counts: Seq<DimensionCount>, index: Seq<IndexModel>)
    requires
        is_histogram(counts, index),
    ensures
        index.len() == 0 ==> dimension_of(index) == 0,
        index.len() > 0 ==> dimension_of(index) == index[0].vector.len(),
        forall|i: int, j: int|
            0 <= i < j < counts.len() ==> (#[trigger] counts[i]).dimension < (
            #[trigger] counts[j]).dimension,
        forall|i: int|
            0 <= i < counts.len() ==> {
                let count = (#[trigger] counts[i]).count;
                &&& count > 0
                &&& count == index.filter(
                    |e: IndexModel| e.vector.len() == counts[i].dimension,
                ).len()
            },
        forall|k: int|
            0 <= k < index.len() ==> exists|i: int|
                0 <= i < counts.len() && (#[trigger] counts[i]).dimension == (
                #[trigger] index[k]).vector.len(),
{
    assert forall|i: int| 0 <= i < counts.len() implies {
        let count = (#[trigger] counts[i]).count;
        &&& count > 0
        &&& count == index.filter(|e: IndexModel| e.vector.len() == counts[i].dimension).len()
    } by {
        lemma_filter_same(
            index,
            |e: IndexModel| e.vector.len() == counts[i].dimension,
            of_dimension(counts[i].dimension as nat),
        );
    }
}

} // verus!
