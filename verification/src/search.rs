//! Searching by similarity.

use crate::index::{search_hits, Hit, HitModel};
use crate::rows::{views, window};
use crate::store::{copy_optional, Store, StoreModel};
use crate::tables::{Entry, EntryModel};
use crate::text::{same_text, str_of, text_of};
use vstd::prelude::*;

verus! {

/// What `search` tells of an entry. The score is the bit pattern of a single.
pub struct FoundEntry {
    pub content: String,
    pub theme: String,
    pub score: u32,
    pub stored_at: u64,
    pub session_id: Option<String>,
}

/// What a `FoundEntry` stands for.
pub struct FoundModel {
    pub content: Seq<char>,
    pub theme: Seq<char>,
    pub score: u32,
    pub stored_at: u64,
    pub session_id: Option<Seq<char>>,
}

impl View for FoundEntry {
    type V = FoundModel;

    open spec fn view(&self) -> FoundModel {
        FoundModel {
            content: self.content@,
            theme: self.theme@,
            score: self.score,
            stored_at: self.stored_at,
            session_id: text_of(self.session_id),
        }
    }
}

/// The answer to `search`.
pub struct Found {
    pub results: Vec<FoundEntry>,
    pub available: bool,
}

/// How many identifiers the database takes in one query: the number of variables
/// that SQLite allows where nothing else was set.
pub const MAX_IDS: usize = 32_766;

/// The entry with the identifier `id`, if there is one.
pub open spec fn entry_with_id(entries: Seq<EntryModel>, id: Seq<char>) -> Option<EntryModel>
    decreases entries.len(),
{
    if entries.len() == 0 {
        None
    } else if entries.last().id == id {
        Some(entries.last())
    } else {
        entry_with_id(entries.drop_last(), id)
    }
}

/// Whether one of the hits is the entry `id`.
pub open spec fn hits_id(hits: Seq<HitModel>, id: Seq<char>) -> bool {
    exists|i: int| 0 <= i < hits.len() && (#[trigger] hits[i]).id == id
}

/// What `search` tells of a hit and its entry.
pub open spec fn found_entry(hit: HitModel, e: EntryModel) -> FoundModel {
    FoundModel {
        content: e.content,
        theme: e.theme,
        score: hit.score,
        stored_at: e.stored_at,
        session_id: e.session_id,
    }
}

/// What `search` tells of hits, in their order: of each whose entry exists, once.
pub open spec fn found_entries(
    hits: Seq<HitModel>,
    entries: Seq<EntryModel>,
) -> Seq<FoundModel>
    decreases hits.len(),
{
    if hits.len() == 0 {
        Seq::empty()
    } else {
        let before = found_entries(hits.drop_last(), entries);
        let hit = hits.last();
        match entry_with_id(entries, hit.id) {
            Some(e) => if hits_id(hits.drop_last(), hit.id) {
                before
            } else {
                before.push(found_entry(hit, e))
            },
            None => before,
        }
    }
}

/// The answer to a search: what it tells of the hits in its window. The rows of the
/// hits are asked for in one query, which is refused if it names too many.
pub open spec fn search_answer(
    store: StoreModel,
    scores: Seq<u32>,
    top_k: nat,
    offset: nat,
    min_score: u32,
    theme: Option<Seq<char>>,
    session: Option<Seq<char>>,
) -> Result<Seq<FoundModel>, Seq<char>> {
    let hits = window(
        search_hits(store.index, scores, min_score, theme, session),
        offset,
        top_k,
    );
    if hits.len() > MAX_IDS {
        Err("too many SQL variables"@)
    } else {
        Ok(found_entries(hits, store.entries))
    }
}

/// The position of the entry with the identifier `id`. `has_id` tells of an entry
/// whether it has that identifier.
pub(crate) fn position_of<T: View<V = EntryModel>, F: Fn(&T) -> bool>(
    entries: &Vec<T>,
    has_id: F,
    Ghost(id): Ghost<Seq<char>>,
) -> (position: Option<usize>)
    requires
        forall|row: &T| call_requires(has_id, (row,)),
        forall|row: &T, r: bool| call_ensures(has_id, (row,), r) ==> r == (row@.id == id),
    ensures
        match position {
            Some(i) => i < entries@.len() && entry_with_id(views(entries@), id) == Some(
                entries@[i as int]@,
            ),
            None => entry_with_id(views(entries@), id) is None,
        },
{
    let ghost all = views(entries@);
    let mut i: usize = entries.len();
    assert(all.take(i as int) =~= all);
    while i > 0
        invariant
            i <= entries@.len(),
            all == views(entries@),
            forall|row: &T| call_requires(has_id, (row,)),
            forall|row: &T, r: bool| call_ensures(has_id, (row,), r) ==> r == (row@.id == id),
            entry_with_id(all, id) == entry_with_id(all.take(i as int), id),
        decreases i,
    {
        proof {
            let head = all.take(i as int);
            assert(head.drop_last() =~= all.take(i - 1));
            assert(head.last() == entries@[i - 1]@);
        }
        i = i - 1;
        if has_id(&entries[i]) {
            return Some(i);
        }
    }
    None
}

/// Whether one of the first `count` hits is the entry `id`.
fn seen_before(hits: &Vec<Hit>, count: usize, id: &str) -> (r: bool)
    requires
        count <= hits@.len(),
    ensures
        r == hits_id(views(hits@).take(count as int), id@),
{
    let ghost head = views(hits@).take(count as int);
    let mut i: usize = 0;
    while i < count
        invariant
            i <= count <= hits@.len(),
            head == views(hits@).take(count as int),
            forall|k: int| 0 <= k < i ==> (#[trigger] head[k]).id != id@,
        decreases count - i,
    {
        if same_text(hits[i].id.as_str(), id) {
            assert(head[i as int].id == id@);
            return true;
        }
        assert(head[i as int].id != id@);
        i = i + 1;
    }
    false
}

/// The hits of a window: at most `count`, after passing over `start`.
fn hits_in_window(hits: &Vec<Hit>, start: usize, count: usize) -> (out: Vec<Hit>)
    ensures
        views(out@) == window(views(hits@), start as nat, count as nat),
{
    let ghost chosen = window(views(hits@), start as nat, count as nat);
    let mut out: Vec<Hit> = Vec::new();
    let mut i: usize = if hits.len() <= start {
        hits.len()
    } else {
        start
    };
    let from: usize = i;
    while i < hits.len() && out.len() < count
        invariant
            from <= i <= hits@.len(),
            from == (if hits@.len() <= start {
                hits@.len()
            } else {
                start as nat
            }),
            out@.len() == i - from <= count,
            forall|k: int| 0 <= k < out@.len() ==> (#[trigger] out@[k])@ == hits@[from + k]@,
        decreases hits.len() - i,
    {
        out.push(Hit { score: hits[i].score, id: hits[i].id.clone() });
        i = i + 1;
    }
    assert(views(out@) =~= chosen);
    out
}

impl Store {
    /// Finds entries by similarity, best first: of those that the index accepts,
    /// at most `top_k`, after passing over `offset`. `scores` holds a score for
    /// each entry of the index. With a session, entries of that session and global
    /// ones are found. More hits than the database takes in one query are an error.
    pub fn cmd_search(
        &self,
        scores: &Vec<u32>,
        top_k: usize,
        offset: usize,
        min_score: u32,
        theme_filter: Option<&str>,
        session_id: Option<&str>,
    ) -> (r: Result<Found, String>)
        requires
            scores@.len() == self@.index.len(),
        ensures
            ({
                let answer = search_answer(
                    self@,
                    scores@,
                    top_k as nat,
                    offset as nat,
                    min_score,
                    str_of(theme_filter),
                    str_of(session_id),
                );
                match r {
                    Ok(found) => answer == Ok::<Seq<FoundModel>, Seq<char>>(
                        views(found.results@),
                    ) && found.available,
                    Err(error) => answer == Err::<Seq<FoundModel>, Seq<char>>(error@),
                }
            }),
    {
        let all: Vec<Hit> = self.index.search(scores, min_score, theme_filter, session_id);
        let hits: Vec<Hit> = hits_in_window(&all, offset, top_k);
        if hits.len() > MAX_IDS {
            return Err("too many SQL variables".to_string());
        }
        let mut results: Vec<FoundEntry> = Vec::new();
        let mut i: usize = 0;
        assert(views(results@) =~= Seq::empty());
        while i < hits.len()
            invariant
                i <= hits@.len(),
                views(results@) == found_entries(views(hits@).take(i as int), self@.entries),
            decreases hits.len() - i,
        {
            proof {
                let next = views(hits@).take(i + 1);
                assert(next.drop_last() =~= views(hits@).take(i as int));
                assert(next.last() == hits@[i as int]@);
            }
            let ghost before = results@;
            let hit: &Hit = &hits[i];
            let seen: bool = seen_before(&hits, i, hit.id.as_str());
            let has_id = |e: &Entry| -> (r: bool)
                ensures
                    r == (e@.id == hit.id@),
                { same_text(e.id.as_str(), hit.id.as_str()) };
            match position_of(&self.entries, has_id, Ghost(hit.id@)) {
                Some(p) => {
                    if !seen {
                        let row: &Entry = &self.entries[p];
                        let found = FoundEntry {
                            content: row.content.clone(),
                            theme: row.theme.clone(),
                            score: hit.score,
                            stored_at: row.stored_at,
                            session_id: copy_optional(&row.session_id),
                        };
                        results.push(found);
                        assert(views(results@) =~= views(before).push(found@));
                    }
                },
                None => {},
            }
            i = i + 1;
        }
        assert(views(hits@).take(i as int) =~= views(hits@));
        Ok(Found { results, available: true })
    }
}

} // verus!
