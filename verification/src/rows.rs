//! Rows: selecting, dropping and ordering them.

use vstd::prelude::*;

verus! {

/// What the rows of a sequence stand for, one by one.
pub open spec fn views<T: View>(rows: Seq<T>) -> Seq<T::V> {
    Seq::new(rows.len(), |i: int| rows[i]@)
}

/// The rows that stay: those whose flag is set, and those without a flag.
pub open spec fn kept<V>(rows: Seq<V>, flags: Seq<bool>) -> Seq<V>
    decreases rows.len(),
{
    if rows.len() == 0 {
        rows
    } else {
        let before = kept(rows.drop_last(), flags);
        if rows.len() <= flags.len() && !flags[rows.len() - 1] {
            before
        } else {
            before.push(rows.last())
        }
    }
}

/// The last `count` rows, or all where there are fewer.
pub open spec fn last_rows<V>(rows: Seq<V>, count: nat) -> Seq<V> {
    if rows.len() <= count {
        rows
    } else {
        rows.skip(rows.len() - count)
    }
}

/// At most `count` rows, after passing over `start` of them.
pub open spec fn window<V>(rows: Seq<V>, start: nat, count: nat) -> Seq<V> {
    let from = if rows.len() <= start {
        rows.len()
    } else {
        start
    };
    let rest = rows.skip(from as int);
    if rest.len() <= count {
        rest
    } else {
        rest.take(count as int)
    }
}

/// Rows that have an order.
pub trait Ranked: View + Sized {
    /// Whether `a` comes no later than `b`.
    spec fn precedes(a: Self::V, b: Self::V) -> bool;

    /// Any two rows are ordered one way or the other.
    proof fn lemma_total(a: Self::V, b: Self::V)
        ensures
            Self::precedes(a, b) || Self::precedes(b, a),
    ;

    /// The order is transitive.
    proof fn lemma_transitive(a: Self::V, b: Self::V, c: Self::V)
        requires
            Self::precedes(a, b),
            Self::precedes(b, c),
        ensures
            Self::precedes(a, c),
    ;

    /// Whether this row comes no later than the other.
    fn not_after(&self, other: &Self) -> (r: bool)
        ensures
            r == Self::precedes(self@, other@),
    ;
}

/// `rows`, which are in order, with `row` put in behind those that come no later.
pub open spec fn put_in<T: Ranked>(rows: Seq<T::V>, row: T::V) -> Seq<T::V>
    decreases rows.len(),
{
    if rows.len() == 0 || T::precedes(rows.last(), row) {
        rows.push(row)
    } else {
        put_in::<T>(rows.drop_last(), row).push(rows.last())
    }
}

/// The rows in order; rows that rank alike stay in the order in which they stood.
pub open spec fn ranked<T: Ranked>(rows: Seq<T::V>) -> Seq<T::V>
    decreases rows.len(),
{
    if rows.len() == 0 {
        rows
    } else {
        put_in::<T>(ranked::<T>(rows.drop_last()), rows.last())
    }
}

/// Whether the rows stand in order.
pub open spec fn in_order<T: Ranked>(rows: Seq<T::V>) -> bool {
    forall|i: int, j: int|
        0 <= i < j < rows.len() ==> T::precedes(#[trigger] rows[i], #[trigger] rows[j])
}

/// The rows that `keep` accepts, as they stand.
pub(crate) fn select<'a, T: View, F: Fn(&T) -> bool>(
    rows: &'a Vec<T>,
    keep: F,
    Ghost(pred): Ghost<spec_fn(T::V) -> bool>,
) -> (out: Vec<&'a T>)
    requires
        forall|row: &T| call_requires(keep, (row,)),
        forall|row: &T, r: bool| call_ensures(keep, (row,), r) ==> r == pred(row@),
    ensures
        views(out@) == views(rows@).filter(pred),
{
    let mut out: Vec<&'a T> = Vec::new();
    let mut i: usize = 0;
    proof {
        reveal(Seq::filter);
        assert(views(rows@).take(0) =~= Seq::empty());
        assert(views(out@) =~= Seq::empty());
    }
    while i < rows.len()
        invariant
            i <= rows@.len(),
            forall|row: &T| call_requires(keep, (row,)),
            forall|row: &T, r: bool| call_ensures(keep, (row,), r) ==> r == pred(row@),
            views(out@) == views(rows@).take(i as int).filter(pred),
        decreases rows.len() - i,
    {
        proof {
            reveal(Seq::filter);
            let next = views(rows@).take(i + 1);
            assert(next.drop_last() =~= views(rows@).take(i as int));
        }
        let row: &'a T = &rows[i];
        let ghost before = out@;
        if keep(row) {
            out.push(row);
            assert(views(out@) =~= views(before).push(row@));
        }
        i = i + 1;
    }
    assert(views(rows@).take(i as int) =~= views(rows@));
    out
}

/// Puts a row in its place among rows that are in order.
pub(crate) fn insert_row<'a, T: Ranked>(rows: &mut Vec<&'a T>, row: &'a T)
    ensures
        views(final(rows)@) == put_in::<T>(views(old(rows)@), row@),
{
    let ghost all = views(rows@);
    let mut i: usize = rows.len();
    assert(all.take(i as int) =~= all);
    assert(all.skip(i as int) =~= Seq::empty());
    while i > 0 && !rows[i - 1].not_after(row)
        invariant
            i <= rows@.len(),
            all == views(rows@),
            put_in::<T>(all, row@) == put_in::<T>(all.take(i as int), row@) + all.skip(i as int),
        decreases i,
    {
        proof {
            let head = all.take(i as int);
            assert(head.drop_last() =~= all.take(i - 1));
            assert(head.last() == all[i - 1]);
            assert(put_in::<T>(head, row@) == put_in::<T>(all.take(i - 1), row@).push(
                all[i - 1],
            ));
            assert(put_in::<T>(all.take(i - 1), row@).push(all[i - 1]) + all.skip(i as int)
                =~= put_in::<T>(all.take(i - 1), row@) + all.skip(i - 1));
        }
        i = i - 1;
    }
    proof {
        let head = all.take(i as int);
        assert(put_in::<T>(head, row@) == head.push(row@));
    }
    let ghost before = rows@;
    rows.insert(i, row);
    assert(views(rows@) =~= all.take(i as int).push(row@) + all.skip(i as int));
}

/// The rows in order.
pub(crate) fn rank<'a, T: Ranked>(rows: &Vec<&'a T>) -> (out: Vec<&'a T>)
    ensures
        views(out@) == ranked::<T>(views(rows@)),
{
    let mut out: Vec<&'a T> = Vec::new();
    let mut i: usize = 0;
    assert(views(rows@).take(0) =~= Seq::empty());
    assert(views(out@) =~= Seq::empty());
    while i < rows.len()
        invariant
            i <= rows@.len(),
            views(out@) == ranked::<T>(views(rows@).take(i as int)),
        decreases rows.len() - i,
    {
        proof {
            let next = views(rows@).take(i + 1);
            assert(next.drop_last() =~= views(rows@).take(i as int));
            assert(next.last() == rows@[i as int]@);
        }
        insert_row(&mut out, rows[i]);
        i = i + 1;
    }
    assert(views(rows@).take(i as int) =~= views(rows@));
    out
}

/// The rows that stay, by their flags.
pub(crate) fn drop_rows<T: View>(rows: Vec<T>, flags: &Vec<bool>) -> (out: Vec<T>)
    ensures
        views(out@) == kept(views(rows@), flags@),
{
    let mut out: Vec<T> = Vec::new();
    let ghost all = rows@;
    let count: usize = rows.len();
    let mut i: usize = 0;
    assert(views(all).take(0) =~= Seq::empty());
    assert(views(out@) =~= Seq::empty());
    for row in it: rows
        invariant
            it.seq() == all,
            i == it.index(),
            views(out@) == kept(views(all).take(i as int), flags@),
            count == all.len(),
    {
        let ghost before = out@;
        proof {
            let next = views(all).take(i + 1);
            assert(next.drop_last() =~= views(all).take(i as int));
            assert(next.last() == row@);
        }
        if i >= flags.len() || flags[i] {
            out.push(row);
            assert(views(out@) =~= views(before).push(row@));
        }
        i = i + 1;
    }
    assert(views(all).take(all.len() as int) =~= views(all));
    out
}

/// Keeps the rows that `keep` accepts and drops the others.
pub(crate) fn retain_rows<T: View, F: Fn(&T) -> bool>(
    rows: &mut Vec<T>,
    keep: F,
    Ghost(pred): Ghost<spec_fn(T::V) -> bool>,
)
    requires
        forall|row: &T| call_requires(keep, (row,)),
        forall|row: &T, r: bool| call_ensures(keep, (row,), r) ==> r == pred(row@),
    ensures
        views(final(rows)@) == views(old(rows)@).filter(pred),
{
    let mut taken: Vec<T> = Vec::new();
    std::mem::swap(&mut taken, rows);
    let ghost all = taken@;
    proof {
        reveal(Seq::filter);
        assert(views(all).take(0) =~= Seq::empty());
        assert(views(rows@) =~= Seq::empty());
    }
    for row in it: taken
        invariant
            it.seq() == all,
            forall|row: &T| call_requires(keep, (row,)),
            forall|row: &T, r: bool| call_ensures(keep, (row,), r) ==> r == pred(row@),
            views(rows@) == views(all).take(it.index()).filter(pred),
    {
        let ghost before = rows@;
        proof {
            reveal(Seq::filter);
            let next = views(all).take(it.index() + 1);
            assert(next.drop_last() =~= views(all).take(it.index()));
            assert(next.last() == row@);
        }
        if keep(&row) {
            rows.push(row);
            assert(views(rows@) =~= views(before).push(row@));
        }
    }
    assert(views(all).take(all.len() as int) =~= views(all));
}

/// For each row, whether `keep` accepts it.
pub(crate) fn flag_rows<T: View, F: Fn(&T) -> bool>(
    rows: &Vec<T>,
    keep: F,
    Ghost(pred): Ghost<spec_fn(T::V) -> bool>,
) -> (flags: Vec<bool>)
    requires
        forall|row: &T| call_requires(keep, (row,)),
        forall|row: &T, r: bool| call_ensures(keep, (row,), r) ==> r == pred(row@),
    ensures
        flags@.len() == rows@.len(),
        forall|i: int| 0 <= i < rows@.len() ==> #[trigger] flags@[i] == pred(rows@[i]@),
        kept(views(rows@), flags@) == views(rows@).filter(pred),
{
    let mut flags: Vec<bool> = Vec::new();
    let mut i: usize = 0;
    while i < rows.len()
        invariant
            i == flags@.len() <= rows@.len(),
            forall|row: &T| call_requires(keep, (row,)),
            forall|row: &T, r: bool| call_ensures(keep, (row,), r) ==> r == pred(row@),
            forall|k: int| 0 <= k < i ==> #[trigger] flags@[k] == pred(rows@[k]@),
        decreases rows.len() - i,
    {
        flags.push(keep(&rows[i]));
        i = i + 1;
    }
    proof {
        lemma_kept_is_filter(views(rows@), flags@, pred);
    }
    flags
}

/// Flags that follow a predicate keep the rows that it accepts.
pub proof fn lemma_kept_is_filter<V>(rows: Seq<V>, flags: Seq<bool>, pred: spec_fn(V) -> bool)
    requires
        rows.len() <= flags.len(),
        forall|i: int| 0 <= i < rows.len() ==> #[trigger] flags[i] == pred(rows[i]),
    ensures
        kept(rows, flags) == rows.filter(pred),
    decreases rows.len(),
{
    reveal(Seq::filter);
    if rows.len() > 0 {
        let head = rows.drop_last();
        assert forall|i: int| 0 <= i < head.len() implies #[trigger] flags[i] == pred(
            head[i],
        ) by {
            assert(head[i] == rows[i]);
        }
        lemma_kept_is_filter(head, flags, pred);
        assert(flags[rows.len() - 1] == pred(rows[rows.len() - 1]));
    }
}

/// A filter that accepts all rows leaves them as they are.
pub proof fn lemma_filter_all<V>(rows: Seq<V>, pred: spec_fn(V) -> bool)
    requires
        forall|i: int| 0 <= i < rows.len() ==> pred(#[trigger] rows[i]),
    ensures
        rows.filter(pred) == rows,
    decreases rows.len(),
{
    reveal(Seq::filter);
    if rows.len() > 0 {
        let head = rows.drop_last();
        assert forall|i: int| 0 <= i < head.len() implies pred(#[trigger] head[i]) by {
            assert(head[i] == rows[i]);
        }
        lemma_filter_all(head, pred);
        assert(pred(rows[rows.len() - 1]));
        assert(rows =~= head.push(rows.last()));
    }
}

/// Without flags, all rows stay.
pub proof fn lemma_kept_all<V>(rows: Seq<V>)
    ensures
        kept(rows, Seq::empty()) == rows,
    decreases rows.len(),
{
    if rows.len() > 0 {
        lemma_kept_all(rows.drop_last());
        assert(rows =~= rows.drop_last().push(rows.last()));
    }
}

/// Putting a row in adds that row and nothing else.
proof fn lemma_put_in_multiset<T: Ranked>(rows: Seq<T::V>, row: T::V)
    ensures
        put_in::<T>(rows, row).to_multiset() == rows.to_multiset().insert(row),
    decreases rows.len(),
{
    broadcast use vstd::seq_lib::group_to_multiset_ensures;

    if rows.len() == 0 || T::precedes(rows.last(), row) {
    } else {
        lemma_put_in_multiset::<T>(rows.drop_last(), row);
        assert(rows =~= rows.drop_last().push(rows.last()));
        assert(put_in::<T>(rows, row).to_multiset() =~= rows.to_multiset().insert(row));
    }
}

/// Ordering rows neither adds nor loses any.
pub proof fn lemma_ranked_same_rows<T: Ranked>(rows: Seq<T::V>)
    ensures
        ranked::<T>(rows).to_multiset() == rows.to_multiset(),
        ranked::<T>(rows).len() == rows.len(),
    decreases rows.len(),
{
    broadcast use vstd::seq_lib::group_to_multiset_ensures;

    if rows.len() > 0 {
        lemma_ranked_same_rows::<T>(rows.drop_last());
        lemma_put_in_multiset::<T>(ranked::<T>(rows.drop_last()), rows.last());
        assert(rows =~= rows.drop_last().push(rows.last()));
    }
    assert(ranked::<T>(rows).len() == ranked::<T>(rows).to_multiset().len());
}

/// A row is among the ordered rows exactly if it was among the rows.
pub proof fn lemma_ranked_contains<T: Ranked>(rows: Seq<T::V>, row: T::V)
    ensures
        ranked::<T>(rows).contains(row) <==> rows.contains(row),
{
    broadcast use vstd::seq_lib::group_to_multiset_ensures;

    lemma_ranked_same_rows::<T>(rows);
    assert(ranked::<T>(rows).contains(row) <==> ranked::<T>(rows).to_multiset().count(row) > 0);
    assert(rows.contains(row) <==> rows.to_multiset().count(row) > 0);
}

proof fn lemma_put_in_order<T: Ranked>(rows: Seq<T::V>, row: T::V)
    requires
        in_order::<T>(rows),
    ensures
        in_order::<T>(put_in::<T>(rows, row)),
    decreases rows.len(),
{
    if rows.len() == 0 || T::precedes(rows.last(), row) {
        let out = rows.push(row);
        assert forall|i: int, j: int| 0 <= i < j < out.len() implies T::precedes(
            #[trigger] out[i],
            #[trigger] out[j],
        ) by {
            if j == rows.len() && i < rows.len() - 1 {
                T::lemma_transitive(rows[i], rows.last(), row);
            }
        }
    } else {
        let head = rows.drop_last();
        lemma_put_in_order::<T>(head, row);
        let mid = put_in::<T>(head, row);
        let out = mid.push(rows.last());
        assert forall|i: int, j: int| 0 <= i < j < out.len() implies T::precedes(
            #[trigger] out[i],
            #[trigger] out[j],
        ) by {
            if j == mid.len() {
                lemma_put_in_contains::<T>(head, row, mid[i]);
                if mid[i] == row {
                    T::lemma_total(row, rows.last());
                } else {
                    let k = choose|k: int| 0 <= k < head.len() && head[k] == mid[i];
                    assert(T::precedes(rows[k], rows[rows.len() - 1]));
                }
            }
        }
    }
}

proof fn lemma_put_in_contains<T: Ranked>(rows: Seq<T::V>, row: T::V, x: T::V)
    ensures
        put_in::<T>(rows, row).contains(x) ==> x == row || rows.contains(x),
{
    broadcast use vstd::seq_lib::group_to_multiset_ensures;

    lemma_put_in_multiset::<T>(rows, row);
    assert(put_in::<T>(rows, row).contains(x) <==> put_in::<T>(rows, row).to_multiset().count(x)
        > 0);
    assert(rows.contains(x) <==> rows.to_multiset().count(x) > 0);
}

/// Ordered rows stand in order.
pub proof fn lemma_ranked_in_order<T: Ranked>(rows: Seq<T::V>)
    ensures
        in_order::<T>(ranked::<T>(rows)),
    decreases rows.len(),
{
    if rows.len() > 0 {
        lemma_ranked_in_order::<T>(rows.drop_last());
        lemma_put_in_order::<T>(ranked::<T>(rows.drop_last()), rows.last());
    }
}

/// Whether two rows rank alike.
pub open spec fn alike<T: Ranked>(a: T::V, b: T::V) -> bool {
    T::precedes(a, b) && T::precedes(b, a)
}

/// The rows that rank like `like`.
pub open spec fn ranks_like<T: Ranked>(like: T::V) -> spec_fn(T::V) -> bool {
    |x: T::V| alike::<T>(x, like)
}

proof fn lemma_put_in_stable<T: Ranked>(rows: Seq<T::V>, row: T::V, like: T::V)
    ensures
        put_in::<T>(rows, row).filter(ranks_like::<T>(like)) == rows.push(row).filter(
            ranks_like::<T>(like),
        ),
    decreases rows.len(),
{
    let p = ranks_like::<T>(like);
    reveal(Seq::filter);
    if rows.len() == 0 || T::precedes(rows.last(), row) {
    } else {
        let head = rows.drop_last();
        lemma_put_in_stable::<T>(head, row, like);
        let mid = put_in::<T>(head, row);
        assert(mid.push(rows.last()).drop_last() =~= mid);
        assert(rows.push(row).drop_last() =~= rows);
        assert(head.push(row).drop_last() =~= head);
        if alike::<T>(row, like) && alike::<T>(rows.last(), like) {
            T::lemma_transitive(rows.last(), like, row);
        }
        let head_part = head.filter(p);
        assert(rows.filter(p) == (if p(rows.last()) {
            head_part.push(rows.last())
        } else {
            head_part
        }));
        assert(rows.push(row).filter(p) == (if p(row) {
            rows.filter(p).push(row)
        } else {
            rows.filter(p)
        }));
        assert(head.push(row).filter(p) == (if p(row) {
            head_part.push(row)
        } else {
            head_part
        }));
        assert(mid.push(rows.last()).filter(p) == (if p(rows.last()) {
            mid.filter(p).push(rows.last())
        } else {
            mid.filter(p)
        }));
    }
}

/// Rows that rank alike keep the order in which they stood.
pub proof fn lemma_ranked_stable<T: Ranked>(rows: Seq<T::V>, like: T::V)
    ensures
        ranked::<T>(rows).filter(ranks_like::<T>(like)) == rows.filter(ranks_like::<T>(like)),
    decreases rows.len(),
{
    reveal(Seq::filter);
    if rows.len() > 0 {
        let before = ranked::<T>(rows.drop_last());
        lemma_ranked_stable::<T>(rows.drop_last(), like);
        lemma_put_in_stable::<T>(before, rows.last(), like);
        assert(before.push(rows.last()).drop_last() =~= before);
    }
}

/// A row that comes no earlier than the others goes to the end.
pub proof fn lemma_ranked_last<T: Ranked>(rows: Seq<T::V>, row: T::V)
    requires
        forall|i: int| 0 <= i < rows.len() ==> T::precedes(#[trigger] rows[i], row),
    ensures
        ranked::<T>(rows.push(row)) == ranked::<T>(rows).push(row),
{
    assert(rows.push(row).drop_last() =~= rows);
    let before = ranked::<T>(rows);
    if before.len() > 0 {
        assert(before.contains(before[before.len() - 1]));
        lemma_ranked_contains::<T>(rows, before.last());
    }
}

/// Rows that stand in order already stay as they are.
pub proof fn lemma_ranked_unchanged<T: Ranked>(rows: Seq<T::V>)
    requires
        in_order::<T>(rows),
    ensures
        ranked::<T>(rows) == rows,
    decreases rows.len(),
{
    if rows.len() > 0 {
        let head = rows.drop_last();
        assert forall|i: int, j: int| 0 <= i < j < head.len() implies T::precedes(
            #[trigger] head[i],
            #[trigger] head[j],
        ) by {
            assert(T::precedes(rows[i], rows[j]));
        }
        lemma_ranked_unchanged::<T>(head);
        if head.len() > 0 {
            assert(T::precedes(rows[head.len() - 1], rows[rows.len() - 1]));
        }
        assert(rows =~= head.push(rows.last()));
    }
}

/// What a filter makes of one row more.
pub proof fn lemma_filter_push<V>(rows: Seq<V>, row: V, pred: spec_fn(V) -> bool)
    ensures
        rows.push(row).filter(pred) == if pred(row) {
            rows.filter(pred).push(row)
        } else {
            rows.filter(pred)
        },
{
    reveal(Seq::filter);
    assert(rows.push(row).drop_last() =~= rows);
}

/// A row passes a filter exactly if it is among the rows and accepted.
pub proof fn lemma_filter_has<V>(rows: Seq<V>, pred: spec_fn(V) -> bool, row: V)
    ensures
        rows.filter(pred).contains(row) <==> rows.contains(row) && pred(row),
    decreases rows.len(),
{
    reveal(Seq::filter);
    if rows.len() > 0 {
        let head = rows.drop_last();
        lemma_filter_has(head, pred, row);
        assert(rows =~= head.push(rows.last()));
        assert(rows.contains(row) <==> head.contains(row) || rows.last() == row) by {
            if head.contains(row) {
                let i = choose|i: int| 0 <= i < head.len() && head[i] == row;
                assert(rows[i] == row);
            }
            if rows.last() == row {
                assert(rows[rows.len() - 1] == row);
            }
        }
        let before = head.filter(pred);
        if pred(rows.last()) {
            assert(before.push(rows.last()).contains(row) <==> before.contains(row) || rows.last()
                == row) by {
                if before.contains(row) {
                    let i = choose|i: int| 0 <= i < before.len() && before[i] == row;
                    assert(before.push(rows.last())[i] == row);
                }
                if rows.last() == row {
                    assert(before.push(rows.last())[before.len() as int] == row);
                }
            }
        }
    }
}

/// Filters that agree on the rows accept the same ones.
pub proof fn lemma_filter_same<V>(
    rows: Seq<V>,
    pred: spec_fn(V) -> bool,
    other: spec_fn(V) -> bool,
)
    requires
        forall|i: int| 0 <= i < rows.len() ==> pred(#[trigger] rows[i]) == other(rows[i]),
    ensures
        rows.filter(pred) == rows.filter(other),
    decreases rows.len(),
{
    reveal(Seq::filter);
    if rows.len() > 0 {
        let head = rows.drop_last();
        assert forall|i: int| 0 <= i < head.len() implies pred(#[trigger] head[i]) == other(
            head[i],
        ) by {
            assert(head[i] == rows[i]);
        }
        lemma_filter_same(head, pred, other);
        assert(pred(rows[rows.len() - 1]) == other(rows[rows.len() - 1]));
    }
}

/// Two filters one after the other accept what both accept.
pub proof fn lemma_filter_twice<V>(
    rows: Seq<V>,
    first: spec_fn(V) -> bool,
    second: spec_fn(V) -> bool,
    both: spec_fn(V) -> bool,
)
    requires
        forall|row: V| #[trigger] both(row) == (first(row) && second(row)),
    ensures
        rows.filter(first).filter(second) == rows.filter(both),
    decreases rows.len(),
{
    reveal(Seq::filter);
    if rows.len() > 0 {
        let head = rows.drop_last();
        lemma_filter_twice(head, first, second, both);
        assert(both(rows.last()) == (first(rows.last()) && second(rows.last())));
        if first(rows.last()) {
            lemma_filter_push(head.filter(first), rows.last(), second);
        }
    }
}

/// A filter that accepts no row leaves none.
pub proof fn lemma_filter_none<V>(rows: Seq<V>, pred: spec_fn(V) -> bool)
    requires
        forall|i: int| 0 <= i < rows.len() ==> !pred(#[trigger] rows[i]),
    ensures
        rows.filter(pred) == Seq::<V>::empty(),
{
    rows.lemma_all_neg_filter_empty(pred);
    assert(rows.filter(pred) =~= Seq::empty());
}

/// Whether `a` stands before `b` among the rows.
pub open spec fn stands_before<V>(rows: Seq<V>, a: V, b: V) -> bool {
    exists|i: int, j: int|
        0 <= i < j < rows.len() && #[trigger] rows[i] == a && #[trigger] rows[j] == b
}

/// Rows that stand one before the other still do when one more is added.
proof fn lemma_stands_before_push<V>(rows: Seq<V>, row: V, a: V, b: V)
    ensures
        stands_before(rows, a, b) ==> stands_before(rows.push(row), a, b),
        rows.contains(a) && b == row ==> stands_before(rows.push(row), a, b),
{
    let all = rows.push(row);
    if stands_before(rows, a, b) {
        let (i, j) = choose|i: int, j: int|
            0 <= i < j < rows.len() && #[trigger] rows[i] == a && #[trigger] rows[j] == b;
        assert(all[i] == a && all[j] == b);
    }
    if rows.contains(a) && b == row {
        let i = choose|i: int| 0 <= i < rows.len() && rows[i] == a;
        assert(all[i] == a && all[rows.len() as int] == b);
    }
}

proof fn lemma_put_in_pair<T: Ranked>(rows: Seq<T::V>, row: T::V, k: int, l: int)
    requires
        0 <= k < l < put_in::<T>(rows, row).len(),
        in_order::<T>(rows),
    ensures
        ({
            let out = put_in::<T>(rows, row);
            ||| exists|i: int, j: int|
                0 <= i < j < rows.len() && #[trigger] rows[i] == out[k] && #[trigger] rows[j]
                    == out[l]
            ||| out[l] == row && rows.contains(out[k])
            ||| out[k] == row && !T::precedes(out[l], row)
        }),
    decreases rows.len(),
{
    let out = put_in::<T>(rows, row);
    if rows.len() == 0 || T::precedes(rows.last(), row) {
        if l == rows.len() {
            assert(rows[k] == out[k]);
        } else {
            assert(rows[k] == out[k] && rows[l] == out[l]);
        }
    } else {
        let head = rows.drop_last();
        let mid = put_in::<T>(head, row);
        lemma_put_in_multiset::<T>(head, row);
        assert(in_order::<T>(head)) by {
            assert forall|i: int, j: int| 0 <= i < j < head.len() implies T::precedes(
                #[trigger] head[i],
                #[trigger] head[j],
            ) by {
                assert(T::precedes(rows[i], rows[j]));
            }
        }
        if l < mid.len() {
            lemma_put_in_pair::<T>(head, row, k, l);
            if out[l] == row && head.contains(out[k]) {
                let i = choose|i: int| 0 <= i < head.len() && head[i] == out[k];
                assert(rows[i] == out[k]);
            } else if out[k] == row && !T::precedes(out[l], row) {
            } else {
                let (i, j) = choose|i: int, j: int|
                    0 <= i < j < head.len() && #[trigger] head[i] == mid[k] && #[trigger] head[j]
                        == mid[l];
                assert(rows[i] == out[k] && rows[j] == out[l]);
            }
        } else {
            assert(out[l] == rows.last());
            assert(out[k] == mid[k]);
            assert(mid.contains(mid[k]));
            lemma_put_in_contains::<T>(head, row, mid[k]);
            if mid[k] != row {
                let i = choose|i: int| 0 <= i < head.len() && head[i] == mid[k];
                assert(rows[i] == out[k] && rows[rows.len() - 1] == out[l]);
            }
        }
    }
}

/// Of two ordered rows, either the second ranks strictly later, or the two stood
/// in the same order before.
pub proof fn lemma_ranked_pair<T: Ranked>(rows: Seq<T::V>, k: int, l: int)
    requires
        0 <= k < l < ranked::<T>(rows).len(),
    ensures
        !T::precedes(ranked::<T>(rows)[l], ranked::<T>(rows)[k]) || stands_before(
            rows,
            ranked::<T>(rows)[k],
            ranked::<T>(rows)[l],
        ),
    decreases rows.len(),
{
    let out = ranked::<T>(rows);
    if rows.len() > 0 {
        let head = rows.drop_last();
        let before = ranked::<T>(head);
        let row = rows.last();
        assert(rows =~= head.push(row));
        lemma_ranked_in_order::<T>(head);
        lemma_put_in_pair::<T>(before, row, k, l);
        lemma_stands_before_push(head, row, out[k], out[l]);
        lemma_ranked_contains::<T>(head, out[k]);
        if !(out[l] == row && before.contains(out[k])) && !(out[k] == row && !T::precedes(
            out[l],
            row,
        )) {
            let (i, j) = choose|i: int, j: int|
                0 <= i < j < before.len() && #[trigger] before[i] == out[k] && #[trigger] before[j]
                    == out[l];
            lemma_ranked_pair::<T>(head, i, j);
        }
    }
}

/// Rows that pass a filter stand in the order in which they stood.
pub proof fn lemma_filter_order<V>(rows: Seq<V>, pred: spec_fn(V) -> bool, a: V, b: V)
    requires
        stands_before(rows.filter(pred), a, b),
    ensures
        stands_before(rows, a, b),
    decreases rows.len(),
{
    reveal(Seq::filter);
    let left = rows.filter(pred);
    let (i, j) = choose|i: int, j: int|
        0 <= i < j < left.len() && #[trigger] left[i] == a && #[trigger] left[j] == b;
    let head = rows.drop_last();
    let before = head.filter(pred);
    assert(rows =~= head.push(rows.last()));
    lemma_stands_before_push(head, rows.last(), a, b);
    if j < before.len() {
        assert(before[i] == a && before[j] == b);
        lemma_filter_order(head, pred, a, b);
    } else {
        assert(before[i] == a);
        assert(before.contains(a));
        lemma_filter_has(head, pred, a);
    }
}

proof fn lemma_put_in_filter<T: Ranked>(
    rows: Seq<T::V>,
    row: T::V,
    pred: spec_fn(T::V) -> bool,
)
    requires
        in_order::<T>(rows),
    ensures
        put_in::<T>(rows, row).filter(pred) == if pred(row) {
            put_in::<T>(rows.filter(pred), row)
        } else {
            rows.filter(pred)
        },
    decreases rows.len(),
{
    if rows.len() == 0 || T::precedes(rows.last(), row) {
        lemma_filter_push(rows, row, pred);
        let left = rows.filter(pred);
        if left.len() > 0 {
            assert(left.contains(left[left.len() - 1]));
            lemma_filter_has(rows, pred, left.last());
            let i = choose|i: int| 0 <= i < rows.len() && rows[i] == left.last();
            if i < rows.len() - 1 {
                assert(T::precedes(rows[i], rows[rows.len() - 1]));
                T::lemma_transitive(rows[i], rows.last(), row);
            }
        }
    } else {
        let head = rows.drop_last();
        assert forall|i: int, j: int| 0 <= i < j < head.len() implies T::precedes(
            #[trigger] head[i],
            #[trigger] head[j],
        ) by {
            assert(T::precedes(rows[i], rows[j]));
        }
        lemma_put_in_filter::<T>(head, row, pred);
        assert(rows =~= head.push(rows.last()));
        lemma_filter_push(head, rows.last(), pred);
        lemma_filter_push(put_in::<T>(head, row), rows.last(), pred);
        if pred(rows.last()) {
            assert(head.filter(pred).push(rows.last()).drop_last() =~= head.filter(pred));
        }
    }
}

/// Ordering rows and filtering them can be done either way round.
pub proof fn lemma_ranked_filter<T: Ranked>(rows: Seq<T::V>, pred: spec_fn(T::V) -> bool)
    ensures
        ranked::<T>(rows.filter(pred)) == ranked::<T>(rows).filter(pred),
    decreases rows.len(),
{
    reveal(Seq::filter);
    if rows.len() > 0 {
        let head = rows.drop_last();
        lemma_ranked_filter::<T>(head, pred);
        lemma_ranked_in_order::<T>(head);
        lemma_put_in_filter::<T>(ranked::<T>(head), rows.last(), pred);
        if pred(rows.last()) {
            assert(head.filter(pred).push(rows.last()).drop_last() =~= head.filter(pred));
        }
    }
}

/// A filter that accepts, with a row, all rows behind it leaves the last rows.
pub proof fn lemma_filter_last<V>(rows: Seq<V>, pred: spec_fn(V) -> bool)
    requires
        forall|k: int, l: int|
            0 <= k < l < rows.len() && pred(#[trigger] rows[k]) ==> pred(#[trigger] rows[l]),
    ensures
        rows.filter(pred) == last_rows(rows, rows.filter(pred).len()),
    decreases rows.len(),
{
    reveal(Seq::filter);
    rows.lemma_filter_len(pred);
    if rows.len() > 0 {
        let head = rows.drop_last();
        assert forall|k: int, l: int| 0 <= k < l < head.len() && pred(
            #[trigger] head[k],
        ) implies pred(#[trigger] head[l]) by {
            assert(pred(rows[k]) ==> pred(rows[l]));
        }
        lemma_filter_last(head, pred);
        head.lemma_filter_len(pred);
        if pred(rows.last()) {
            assert(rows.filter(pred) =~= last_rows(rows, rows.filter(pred).len()));
        } else {
            assert forall|i: int| 0 <= i < head.len() implies !pred(#[trigger] head[i]) by {
                assert(pred(rows[i]) ==> pred(rows[rows.len() - 1]));
            }
            lemma_filter_none(head, pred);
            assert(rows.filter(pred) =~= last_rows(rows, 0));
        }
    }
}

/// A row that is kept was among the rows.
pub proof fn lemma_kept_has<V>(rows: Seq<V>, flags: Seq<bool>, row: V)
    requires
        kept(rows, flags).contains(row),
    ensures
        rows.contains(row),
    decreases rows.len(),
{
    if rows.len() > 0 {
        let head = rows.drop_last();
        let before = kept(head, flags);
        let i = choose|i: int| 0 <= i < kept(rows, flags).len() && kept(rows, flags)[i] == row;
        if i < before.len() {
            assert(before[i] == row);
            lemma_kept_has(head, flags, row);
            let k = choose|k: int| 0 <= k < head.len() && head[k] == row;
            assert(rows[k] == row);
        } else {
            assert(rows[rows.len() - 1] == row);
        }
    }
}

/// If as many rows are kept as there were, all are.
pub proof fn lemma_kept_whole<V>(rows: Seq<V>, flags: Seq<bool>)
    ensures
        kept(rows, flags).len() <= rows.len(),
        kept(rows, flags).len() == rows.len() ==> kept(rows, flags) == rows,
    decreases rows.len(),
{
    if rows.len() > 0 {
        lemma_kept_whole(rows.drop_last(), flags);
        assert(rows =~= rows.drop_last().push(rows.last()));
    }
}

/// Whether no two rows have the same identifier, where `id` gives the identifier
/// of a row.
pub open spec fn distinct<V>(rows: Seq<V>, id: spec_fn(V) -> Seq<char>) -> bool {
    forall|i: int, j: int|
        0 <= i < j < rows.len() ==> id(#[trigger] rows[i]) != id(#[trigger] rows[j])
}

/// Fewer rows, as they stood, have no more identifiers twice.
proof fn lemma_distinct_head<V>(rows: Seq<V>, id: spec_fn(V) -> Seq<char>)
    requires
        distinct(rows, id),
        rows.len() > 0,
    ensures
        distinct(rows.drop_last(), id),
        forall|row: V| #[trigger] rows.drop_last().contains(row) ==> id(row) != id(rows.last()),
{
    let head = rows.drop_last();
    assert forall|i: int, j: int| 0 <= i < j < head.len() implies id(#[trigger] head[i]) != id(
        #[trigger] head[j],
    ) by {
        assert(id(rows[i]) != id(rows[j]));
    }
    assert forall|row: V| #[trigger] head.contains(row) implies id(row) != id(rows.last()) by {
        let k = choose|k: int| 0 <= k < head.len() && head[k] == row;
        assert(id(rows[k]) != id(rows[rows.len() - 1]));
    }
}

/// One row more leaves identifiers unique if none of the rows has its own.
pub proof fn lemma_distinct_push<V>(rows: Seq<V>, row: V, id: spec_fn(V) -> Seq<char>)
    requires
        distinct(rows, id),
        forall|i: int| 0 <= i < rows.len() ==> id(#[trigger] rows[i]) != id(row),
    ensures
        distinct(rows.push(row), id),
{
    let all = rows.push(row);
    assert forall|i: int, j: int| 0 <= i < j < all.len() implies id(#[trigger] all[i]) != id(
        #[trigger] all[j],
    ) by {
        assert(rows[i] == all[i]);
        if j < rows.len() {
            assert(id(rows[i]) != id(rows[j]));
        }
    }
}

/// A filter leaves identifiers unique.
pub proof fn lemma_distinct_filter<V>(
    rows: Seq<V>,
    pred: spec_fn(V) -> bool,
    id: spec_fn(V) -> Seq<char>,
)
    requires
        distinct(rows, id),
    ensures
        distinct(rows.filter(pred), id),
    decreases rows.len(),
{
    reveal(Seq::filter);
    if rows.len() > 0 {
        let head = rows.drop_last();
        lemma_distinct_head(rows, id);
        lemma_distinct_filter(head, pred, id);
        let before = head.filter(pred);
        assert forall|i: int| 0 <= i < before.len() implies id(#[trigger] before[i]) != id(
            rows.last(),
        ) by {
            assert(before.contains(before[i]));
            lemma_filter_has(head, pred, before[i]);
        }
        lemma_distinct_push(before, rows.last(), id);
    }
}

/// Keeping some of the rows leaves identifiers unique.
pub proof fn lemma_distinct_kept<V>(
    rows: Seq<V>,
    flags: Seq<bool>,
    id: spec_fn(V) -> Seq<char>,
)
    requires
        distinct(rows, id),
    ensures
        distinct(kept(rows, flags), id),
    decreases rows.len(),
{
    if rows.len() > 0 {
        let head = rows.drop_last();
        lemma_distinct_head(rows, id);
        lemma_distinct_kept(head, flags, id);
        let before = kept(head, flags);
        assert forall|i: int| 0 <= i < before.len() implies id(#[trigger] before[i]) != id(
            rows.last(),
        ) by {
            assert(before.contains(before[i]));
            lemma_kept_has(head, flags, before[i]);
        }
        lemma_distinct_push(before, rows.last(), id);
    }
}

/// Setting more flags keeps at least the same rows.
pub proof fn lemma_kept_more<V>(rows: Seq<V>, flags: Seq<bool>, more: Seq<bool>, row: V)
    requires
        flags.len() == more.len(),
        forall|i: int| 0 <= i < flags.len() && #[trigger] flags[i] ==> more[i],
        kept(rows, flags).contains(row),
    ensures
        kept(rows, more).contains(row),
    decreases rows.len(),
{
    if rows.len() > 0 {
        let head = rows.drop_last();
        let before = kept(head, flags);
        let after = kept(head, more);
        let all = kept(rows, more);
        let i = choose|i: int| 0 <= i < kept(rows, flags).len() && kept(rows, flags)[i] == row;
        if i < before.len() {
            assert(before[i] == row);
            lemma_kept_more(head, flags, more, row);
            let k = choose|k: int| 0 <= k < after.len() && after[k] == row;
            assert(all[k] == row);
        } else {
            if rows.len() <= flags.len() {
                assert(flags[rows.len() - 1]);
            }
            assert(all[after.len() as int] == row);
        }
    }
}

} // verus!
