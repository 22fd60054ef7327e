//! The vector index: a flat list, searched in one pass.

use crate::numbers::{single_at_least, single_ge, single_key, single_order};
use crate::rows::{rank, ranked, retain_rows, views, Ranked};
use crate::text::{same_optional, same_text, str_of, text_of};
use vstd::prelude::*;

verus! {

/// What the index keeps of an entry. The components of the vector are bit
/// patterns of singles.
pub struct IndexEntry {
    pub id: String,
    pub theme: String,
    pub vector: Vec<u32>,
    pub session_id: Option<String>,
}

/// What an `IndexEntry` stands for.
pub struct IndexModel {
    pub id: Seq<char>,
    pub theme: Seq<char>,
    pub vector: Seq<u32>,
    pub session_id: Option<Seq<char>>,
}

impl View for IndexEntry {
    type V = IndexModel;

    open spec fn view(&self) -> IndexModel {
        IndexModel {
            id: self.id@,
            theme: self.theme@,
            vector: self.vector@,
            session_id: text_of(self.session_id),
        }
    }
}

/// An entry that a search found, with its score: the bit pattern of a single.
pub struct Hit {
    pub score: u32,
    pub id: String,
}

/// What a `Hit` stands for.
pub struct HitModel {
    pub score: u32,
    pub id: Seq<char>,
}

impl View for Hit {
    type V = HitModel;

    open spec fn view(&self) -> HitModel {
        HitModel { score: self.score, id: self.id@ }
    }
}

/// Hits are ordered by their scores, the highest first.
impl Ranked for Hit {
    open spec fn precedes(a: HitModel, b: HitModel) -> bool {
        single_key(a.score) >= single_key(b.score)
    }

    proof fn lemma_total(a: HitModel, b: HitModel) {
    }

    proof fn lemma_transitive(a: HitModel, b: HitModel, c: HitModel) {
    }

    fn not_after(&self, other: &Self) -> (r: bool) {
        single_order(self.score) >= single_order(other.score)
    }
}

/// How many vectors of the index have a dimension.
pub struct DimensionCount {
    pub dimension: usize,
    pub count: usize,
}

/// The entries of a theme other than `theme`.
pub open spec fn of_other_themes(theme: Seq<char>) -> spec_fn(IndexModel) -> bool {
    |e: IndexModel| e.theme != theme
}

/// The entries that do not belong to the session `session`.
pub open spec fn of_other_sessions(session: Seq<char>) -> spec_fn(IndexModel) -> bool {
    |e: IndexModel| e.session_id != Some(session)
}

/// The entries that are not active in the theme: those of other themes, and those
/// of the theme that belong to another session than `session`, where the global
/// entries count as a session of their own.
pub open spec fn not_active(
    theme: Seq<char>,
    session: Option<Seq<char>>,
) -> spec_fn(IndexModel) -> bool {
    |e: IndexModel| !(e.theme == theme && e.session_id == session)
}

/// The entries whose vector has the dimension `dimension`.
pub open spec fn of_dimension(dimension: nat) -> spec_fn(IndexModel) -> bool {
    |e: IndexModel| e.vector.len() == dimension
}

/// Whether a search looks at the entry. With a theme, it looks at that theme
/// alone; with a session, at that session and at global entries.
pub open spec fn searched(
    e: IndexModel,
    theme: Option<Seq<char>>,
    session: Option<Seq<char>>,
) -> bool {
    &&& theme is Some ==> e.theme == theme->0
    &&& session is Some ==> e.session_id is None || e.session_id == session
}

/// The entries that a search accepts, as they stand in the index: it looks at
/// them, and their score reaches `min_score`. `scores` has a score for each entry.
pub open spec fn accepted(
    index: Seq<IndexModel>,
    scores: Seq<u32>,
    min_score: u32,
    theme: Option<Seq<char>>,
    session: Option<Seq<char>>,
) -> Seq<HitModel>
    decreases index.len(),
{
    if index.len() == 0 {
        Seq::empty()
    } else {
        let before = accepted(index.drop_last(), scores, min_score, theme, session);
        let score = scores[index.len() - 1];
        if searched(index.last(), theme, session) && single_at_least(score, min_score) {
            before.push(HitModel { score, id: index.last().id })
        } else {
            before
        }
    }
}

/// What a search finds, best first; hits with equal scores stay as they stand in the index.
pub open spec fn search_hits(
    index: Seq<IndexModel>,
    scores: Seq<u32>,
    min_score: u32,
    theme: Option<Seq<char>>,
    session: Option<Seq<char>>,
) -> Seq<HitModel> {
    ranked::<Hit>(accepted(index, scores, min_score, theme, session))
}

/// The dimension of the first vector, or zero if there is none.
pub open spec fn dimension_of(index: Seq<IndexModel>) -> nat {
    if index.len() == 0 {
        0
    } else {
        index[0].vector.len()
    }
}

/// Whether `counts` counts the vectors of the index by dimension: each dimension
/// that occurs is there once, with the number of its vectors, in ascending order.
pub open spec fn is_histogram(counts: Seq<DimensionCount>, index: Seq<IndexModel>) -> bool {
    &&& forall|i: int, j: int|
        0 <= i < j < counts.len() ==> (#[trigger] counts[i]).dimension < (
        #[trigger] counts[j]).dimension
    &&& forall|i: int|
        0 <= i < counts.len() ==> 0 < (#[trigger] counts[i]).count == index.filter(
            of_dimension(counts[i].dimension as nat),
        ).len()
    &&& forall|k: int|
        0 <= k < index.len() ==> exists|i: int|
            0 <= i < counts.len() && (#[trigger] counts[i]).dimension == (
            #[trigger] index[k]).vector.len()
}

/// Whether a vector of the index has the dimension `dimension`.
spec fn occurs(index: Seq<IndexModel>, dimension: nat) -> bool {
    exists|k: int| 0 <= k < index.len() && (#[trigger] index[k]).vector.len() == dimension
}

/// Whether no vector of the index has a dimension from `from` up to, but not
/// including, `to`.
spec fn none_between(index: Seq<IndexModel>, from: nat, to: nat) -> bool {
    forall|k: int|
        0 <= k < index.len() ==> (#[trigger] index[k]).vector.len() < from || to
            <= index[k].vector.len()
}

/// Whether the dimension has a count.
spec fn counted(counts: Seq<DimensionCount>, dimension: nat) -> bool {
    exists|i: int| 0 <= i < counts.len() && (#[trigger] counts[i]).dimension == dimension
}

/// Whether each dimension below `below` that occurs has a count.
spec fn all_counted(counts: Seq<DimensionCount>, index: Seq<IndexModel>, below: int) -> bool {
    forall|k: int|
        0 <= k < index.len() && (#[trigger] index[k]).vector.len() < below ==> counted(
            counts,
            index[k].vector.len(),
        )
}

/// The vector index.
pub struct VectorIndex {
    entries: Vec<IndexEntry>,
}

impl View for VectorIndex {
    type V = Seq<IndexModel>;

    closed spec fn view(&self) -> Seq<IndexModel> {
        views(self.entries@)
    }
}

impl VectorIndex {
    /// An empty index.
    pub fn new() -> (index: Self)
        ensures
            index@ == Seq::<IndexModel>::empty(),
    {
        let index = VectorIndex { entries: Vec::new() };
        assert(index@ =~= Seq::empty());
        index
    }

    /// Appends an entry.
    pub fn push(
        &mut self,
        id: String,
        theme: String,
        vector: Vec<u32>,
        session_id: Option<String>,
    )
        ensures
            final(self)@ == old(self)@.push(
                IndexModel {
                    id: id@,
                    theme: theme@,
                    vector: vector@,
                    session_id: text_of(session_id),
                },
            ),
    {
        let ghost before = self.entries@;
        let entry = IndexEntry { id, theme, vector, session_id };
        self.entries.push(entry);
        assert(views(self.entries@) =~= views(before).push(entry@));
    }

    /// Removes the entries of a theme.
    pub fn remove_theme(&mut self, theme: &str)
        ensures
            final(self)@ == old(self)@.filter(of_other_themes(theme@)),
    {
        let keep = |e: &IndexEntry| -> (r: bool)
            ensures
                r == (e@.theme != theme@),
            { !same_text(e.theme.as_str(), theme) };
        retain_rows(&mut self.entries, keep, Ghost(of_other_themes(theme@)));
    }

    /// Removes the entries of a session.
    pub fn remove_session(&mut self, session_id: &str)
        ensures
            final(self)@ == old(self)@.filter(of_other_sessions(session_id@)),
    {
        let keep = |e: &IndexEntry| -> (r: bool)
            ensures
                r == (e@.session_id != Some(session_id@)),
            { !same_optional(&e.session_id, Some(session_id)) };
        retain_rows(&mut self.entries, keep, Ghost(of_other_sessions(session_id@)));
    }

    /// Removes the active entries of a theme: those of the session or, without one,
    /// the global ones.
    pub fn remove_active(&mut self, theme: &str, session_id: Option<&str>)
        ensures
            final(self)@ == old(self)@.filter(not_active(theme@, str_of(session_id))),
    {
        let keep = |e: &IndexEntry| -> (r: bool)
            ensures
                r == not_active(theme@, str_of(session_id))(e@),
            { !(same_text(e.theme.as_str(), theme) && same_optional(&e.session_id, session_id)) };
        retain_rows(
            &mut self.entries,
            keep,
            Ghost(not_active(theme@, str_of(session_id))),
        );
    }

    /// Number of entries.
    pub fn len(&self) -> (len: usize)
        ensures
            len == self@.len(),
    {
        self.entries.len()
    }

    /// Dimension of the first stored vector, or 0 if empty.
    pub fn dim(&self) -> (dim: usize)
        ensures
            dim == dimension_of(self@),
    {
        if self.entries.len() == 0 {
            0
        } else {
            self.entries[0].vector.len()
        }
    }

    /// The vector of the entry at `position`.
    pub fn vector(&self, position: usize) -> (vector: &Vec<u32>)
        requires
            position < self@.len(),
        ensures
            vector@ == self@[position as int].vector,
    {
        &self.entries[position].vector
    }

    /// Finds the entries that the filters let through and whose score reaches
    /// `min_score`, best first. `scores` holds a score for each entry of the index.
    ///
    /// `session_filter = Some(sid)`: entries of that session and global entries.
    /// `session_filter = None`: entries of all sessions.
    pub fn search(
        &self,
        scores: &Vec<u32>,
        min_score: u32,
        theme_filter: Option<&str>,
        session_filter: Option<&str>,
    ) -> (hits: Vec<Hit>)
        requires
            scores@.len() == self@.len(),
        ensures
            views(hits@) == search_hits(
                self@,
                scores@,
                min_score,
                str_of(theme_filter),
                str_of(session_filter),
            ),
    {
        let ghost theme = str_of(theme_filter);
        let ghost session = str_of(session_filter);
        let mut found: Vec<Hit> = Vec::new();
        let mut i: usize = 0;
        assert(views(found@) =~= Seq::empty());
        while i < self.entries.len()
            invariant
                i <= self.entries@.len() == scores@.len(),
                theme == str_of(theme_filter),
                session == str_of(session_filter),
                views(found@) == accepted(self@.take(i as int), scores@, min_score, theme, session),
            decreases self.entries.len() - i,
        {
            let entry: &IndexEntry = &self.entries[i];
            let theme_fits: bool = match theme_filter {
                None => true,
                Some(t) => same_text(entry.theme.as_str(), t),
            };
            let session_fits: bool = match session_filter {
                None => true,
                Some(_) => entry.session_id.is_none() || same_optional(
                    &entry.session_id,
                    session_filter,
                ),
            };
            proof {
                let next = self@.take(i + 1);
                assert(next.drop_last() =~= self@.take(i as int));
                assert(next.last() == entry@);
            }
            let ghost before = found@;
            if theme_fits && session_fits && single_ge(scores[i], min_score) {
                let hit = Hit { score: scores[i], id: entry.id.clone() };
                found.push(hit);
                assert(views(found@) =~= views(before).push(hit@));
            }
            i = i + 1;
        }
        assert(self@.take(i as int) =~= self@);
        in_rank_order(&found)
    }

    /// How many vectors have the dimension `dimension`.
    fn count_dimension(&self, dimension: usize) -> (count: usize)
        ensures
            count == self@.filter(of_dimension(dimension as nat)).len(),
    {
        let ghost pred = of_dimension(dimension as nat);
        let mut count: usize = 0;
        let mut i: usize = 0;
        proof {
            reveal(Seq::filter);
            assert(self@.take(0) =~= Seq::empty());
        }
        while i < self.entries.len()
            invariant
                count <= i <= self.entries@.len(),
                pred == of_dimension(dimension as nat),
                count == self@.take(i as int).filter(pred).len(),
            decreases self.entries.len() - i,
        {
            proof {
                reveal(Seq::filter);
                let next = self@.take(i + 1);
                assert(next.drop_last() =~= self@.take(i as int));
                assert(next.last() == self.entries@[i as int]@);
            }
            if self.entries[i].vector.len() == dimension {
                count = count + 1;
            }
            i = i + 1;
        }
        assert(self@.take(i as int) =~= self@);
        count
    }

    /// The smallest dimension of at least `least` that occurs.
    fn next_dimension(&self, least: usize) -> (dimension: Option<usize>)
        ensures
            match dimension {
                Some(d) => least <= d && occurs(self@, d as nat) && none_between(
                    self@,
                    least as nat,
                    d as nat,
                ),
                None => none_between(self@, least as nat, usize::MAX as nat + 1),
            },
    {
        let mut best: Option<usize> = None;
        let mut i: usize = 0;
        while i < self.entries.len()
            invariant
                i <= self.entries@.len(),
                match best {
                    Some(d) => least <= d && occurs(self@, d as nat) && none_between(
                        self@.take(i as int),
                        least as nat,
                        d as nat,
                    ),
                    None => none_between(self@.take(i as int), least as nat, usize::MAX as nat + 1),
                },
            decreases self.entries.len() - i,
        {
            let dimension: usize = self.entries[i].vector.len();
            assert(self@[i as int].vector.len() == dimension);
            let ghost seen = self@.take(i as int);
            let ghost next = self@.take(i + 1);
            assert(forall|k: int| 0 <= k < i ==> #[trigger] next[k] == seen[k]);
            if dimension >= least {
                let closer: bool = match best {
                    None => true,
                    Some(d) => dimension < d,
                };
                if closer {
                    best = Some(dimension);
                    assert(none_between(next, least as nat, dimension as nat));
                }
            }
            i = i + 1;
        }
        assert(self@.take(i as int) =~= self@);
        best
    }

    /// How many vectors there are of each dimension, in ascending order of dimension.
    pub fn histogram(&self) -> (counts: Vec<DimensionCount>)
        ensures
            is_histogram(counts@, self@),
    {
        let mut counts: Vec<DimensionCount> = Vec::new();
        let mut next: Option<usize> = self.next_dimension(0);
        while next.is_some()
            invariant
                forall|i: int, j: int|
                    0 <= i < j < counts@.len() ==> (#[trigger] counts@[i]).dimension < (
                    #[trigger] counts@[j]).dimension,
                forall|i: int|
                    0 <= i < counts@.len() ==> 0 < (#[trigger] counts@[i]).count == self@.filter(
                        of_dimension(counts@[i].dimension as nat),
                    ).len(),
                match next {
                    Some(d) => {
                        &&& forall|i: int|
                            0 <= i < counts@.len() ==> (#[trigger] counts@[i]).dimension < d
                        &&& occurs(self@, d as nat)
                        &&& all_counted(counts@, self@, d as int)
                    },
                    None => all_counted(counts@, self@, usize::MAX + 1),
                },
            decreases (match next {
                Some(d) => usize::MAX - d + 1,
                None => 0,
            }),
        {
            let dimension: usize = next.unwrap();
            let count: usize = self.count_dimension(dimension);
            let ghost before = counts@;
            counts.push(DimensionCount { dimension, count });
            proof {
                let k = choose|k: int|
                    0 <= k < self@.len() && (#[trigger] self@[k]).vector.len() == dimension;
                assert(of_dimension(dimension as nat)(self@[k]));
                assert(self@.filter(of_dimension(dimension as nat)).contains(self@[k]));
                assert(counts@[before.len() as int].dimension == dimension);
                assert forall|n: nat| #[trigger] counted(before, n) implies counted(counts@, n) by {
                    let i = choose|i: int|
                        0 <= i < before.len() && (#[trigger] before[i]).dimension == n;
                    assert(counts@[i].dimension == n);
                }
                assert(all_counted(counts@, self@, dimension + 1));
            }
            if dimension == usize::MAX {
                next = None;
            } else {
                next = self.next_dimension(dimension + 1);
            }
        }
        proof {
            assert forall|k: int| 0 <= k < self@.len() implies exists|i: int|
                0 <= i < counts@.len() && (#[trigger] counts@[i]).dimension == (
                #[trigger] self@[k]).vector.len() by {
                assert(self@[k].vector.len() == self.entries@[k].vector.len());
                assert(counted(counts@, self@[k].vector.len()));
                let i = choose|i: int|
                    0 <= i < counts@.len() && (#[trigger] counts@[i]).dimension
                        == self@[k].vector.len();
                assert(0 <= i < counts@.len() && counts@[i].dimension == self@[k].vector.len());
            }
        }
        counts
    }
}

/// The hits, best first.
fn in_rank_order(hits: &Vec<Hit>) -> (out: Vec<Hit>)
    ensures
        views(out@) == ranked::<Hit>(views(hits@)),
{
    let mut all: Vec<&Hit> = Vec::new();
    let mut i: usize = 0;
    while i < hits.len()
        invariant
            i == all@.len() <= hits@.len(),
            forall|k: int| 0 <= k < i ==> (#[trigger] all@[k])@ == hits@[k]@,
        decreases hits.len() - i,
    {
        all.push(&hits[i]);
        i = i + 1;
    }
    assert(views(all@) =~= views(hits@));
    let order: Vec<&Hit> = rank(&all);
    let mut out: Vec<Hit> = Vec::new();
    let mut j: usize = 0;
    while j < order.len()
        invariant
            j == out@.len() <= order@.len(),
            forall|k: int| 0 <= k < j ==> (#[trigger] out@[k])@ == order@[k]@,
        decreases order.len() - j,
    {
        out.push(Hit { score: order[j].score, id: order[j].id.clone() });
        j = j + 1;
    }
    assert(views(out@) =~= views(order@));
    out
}

} // verus!
