//! Listing the themes, and the state of the store.

use crate::calendar::{date_time_text, format_unix_secs};
use crate::index::{dimension_of, is_histogram, DimensionCount};
use crate::numbers::{double_key, double_order, double_to_whole, double_whole};
use crate::rows::{lemma_filter_all, lemma_ranked_contains, rank, ranked, select, views};
use crate::store::{any_entry, Store};
use crate::tables::{Entry, EntryModel};
use crate::text::{same_optional, same_text, str_of};
use vstd::prelude::*;

verus! {

/// What `list` tells of a theme.
pub struct ThemeSummary {
    pub theme: String,
    pub entries: usize,
    pub last_modified: String,
}

/// What a `ThemeSummary` stands for.
pub struct ThemeModel {
    pub theme: Seq<char>,
    pub entries: nat,
    pub last_modified: Seq<char>,
}

impl View for ThemeSummary {
    type V = ThemeModel;

    open spec fn view(&self) -> ThemeModel {
        ThemeModel {
            theme: self.theme@,
            entries: self.entries as nat,
            last_modified: self.last_modified@,
        }
    }
}

/// The answer to `list`.
pub struct ThemeList {
    pub themes: Vec<ThemeSummary>,
}

/// The answer to `status`.
pub struct Status {
    pub total_entries: usize,
    pub themes: usize,
    pub vector_dimensions: usize,
    pub dimension_histogram: Vec<DimensionCount>,
    pub storage_path: String,
}

/// The entries that `list` looks at: with a session, those of that session and
/// global ones.
pub open spec fn listed(session: Option<Seq<char>>) -> spec_fn(EntryModel) -> bool {
    |e: EntryModel| session is None || e.session_id is None || e.session_id == session
}

/// The entries of a theme.
pub open spec fn of_theme(theme: Seq<char>) -> spec_fn(EntryModel) -> bool {
    |e: EntryModel| e.theme == theme
}

/// The themes of entries, each once, in the order in which they first occur.
pub open spec fn distinct_themes(entries: Seq<EntryModel>) -> Seq<Seq<char>>
    decreases entries.len(),
{
    if entries.len() == 0 {
        Seq::empty()
    } else {
        let before = distinct_themes(entries.drop_last());
        if before.contains(entries.last().theme) {
            before
        } else {
            before.push(entries.last().theme)
        }
    }
}

/// The latest time at which one of the entries was stored.
pub open spec fn latest_time(entries: Seq<EntryModel>) -> u64
    decreases entries.len(),
{
    if entries.len() <= 1 {
        entries[0].stored_at
    } else {
        let before = latest_time(entries.drop_last());
        if double_key(before) < double_key(entries.last().stored_at) {
            entries.last().stored_at
        } else {
            before
        }
    }
}

/// What `list` tells of a theme, where `entries` are those that it looks at.
pub open spec fn theme_summary(entries: Seq<EntryModel>, theme: Seq<char>) -> ThemeModel {
    let own = entries.filter(of_theme(theme));
    ThemeModel {
        theme,
        entries: own.len(),
        last_modified: date_time_text(double_whole(latest_time(own)) as nat, ' '),
    }
}

/// What `list` tells of the themes, in the order of their names.
pub open spec fn theme_summaries(entries: Seq<EntryModel>) -> Seq<ThemeModel> {
    let themes = ranked::<String>(distinct_themes(entries));
    Seq::new(themes.len(), |i: int| theme_summary(entries, themes[i]))
}

/// Whether the name is among the themes.
fn has_name(themes: &Vec<&String>, name: &str) -> (r: bool)
    ensures
        r == views(themes@).contains(name@),
{
    let mut i: usize = 0;
    while i < themes.len()
        invariant
            i <= themes@.len(),
            forall|k: int| 0 <= k < i ==> #[trigger] views(themes@)[k] != name@,
        decreases themes.len() - i,
    {
        if same_text(themes[i].as_str(), name) {
            assert(views(themes@)[i as int] == name@);
            return true;
        }
        i = i + 1;
    }
    false
}

/// The themes of entries, each once.
fn themes_of<'a>(entries: &Vec<&'a Entry>) -> (themes: Vec<&'a String>)
    ensures
        views(themes@) == distinct_themes(views(entries@)),
{
    let mut themes: Vec<&'a String> = Vec::new();
    let mut i: usize = 0;
    assert(views(themes@) =~= Seq::empty());
    while i < entries.len()
        invariant
            i <= entries@.len(),
            views(themes@) == distinct_themes(views(entries@).take(i as int)),
        decreases entries.len() - i,
    {
        let row: &'a Entry = entries[i];
        proof {
            let next = views(entries@).take(i + 1);
            assert(next.drop_last() =~= views(entries@).take(i as int));
            assert(next.last() == row@);
        }
        if !has_name(&themes, row.theme.as_str()) {
            let ghost before = themes@;
            themes.push(&row.theme);
            assert(views(themes@) =~= views(before).push(row.theme@));
        }
        i = i + 1;
    }
    assert(views(entries@).take(i as int) =~= views(entries@));
    themes
}

/// What `list` tells of a theme that occurs in the entries.
fn summarize(entries: &Vec<&Entry>, theme: &String) -> (summary: ThemeSummary)
    requires
        exists|i: int|
            0 <= i < entries@.len() && (#[trigger] views(entries@)[i]).theme == theme@,
    ensures
        summary@ == theme_summary(views(entries@), theme@),
{
    let ghost all = views(entries@);
    let ghost pred = of_theme(theme@);
    let mut count: usize = 0;
    let mut latest: u64 = 0;
    let mut i: usize = 0;
    proof {
        reveal(Seq::filter);
        assert(all.take(0) =~= Seq::empty());
    }
    while i < entries.len()
        invariant
            count <= i <= entries@.len(),
            all == views(entries@),
            pred == of_theme(theme@),
            count == all.take(i as int).filter(pred).len(),
            count > 0 ==> latest == latest_time(all.take(i as int).filter(pred)),
        decreases entries.len() - i,
    {
        let row: &Entry = entries[i];
        proof {
            reveal(Seq::filter);
            let head = all.take(i as int);
            let next = all.take(i + 1);
            assert(next.drop_last() =~= head);
            assert(next.last() == row@);
            assert(head.filter(pred).push(row@).drop_last() =~= head.filter(pred));
        }
        if same_text(row.theme.as_str(), theme.as_str()) {
            if count == 0 || double_order(latest) < double_order(row.stored_at) {
                latest = row.stored_at;
            }
            count = count + 1;
        }
        i = i + 1;
    }
    proof {
        assert(all.take(i as int) =~= all);
        let k = choose|k: int| 0 <= k < all.len() && (#[trigger] all[k]).theme == theme@;
        assert(pred(all[k]));
        assert(all.filter(pred).contains(all[k]));
    }
    ThemeSummary {
        theme: theme.clone(),
        entries: count,
        last_modified: format_unix_secs(double_to_whole(latest)),
    }
}

/// A theme is among the distinct ones exactly if an entry has it.
pub proof fn lemma_distinct_themes(entries: Seq<EntryModel>, theme: Seq<char>)
    ensures
        distinct_themes(entries).contains(theme) <==> exists|i: int|
            0 <= i < entries.len() && (#[trigger] entries[i]).theme == theme,
        distinct_themes(entries).no_duplicates(),
    decreases entries.len(),
{
    if entries.len() > 0 {
        let head = entries.drop_last();
        let last = entries.last().theme;
        lemma_distinct_themes(head, theme);
        lemma_distinct_themes(head, last);
        let before = distinct_themes(head);
        let all = distinct_themes(entries);
        if before.contains(theme) {
            let k = choose|k: int| 0 <= k < before.len() && before[k] == theme;
            assert(all[k] == theme);
            let i = choose|i: int| 0 <= i < head.len() && (#[trigger] head[i]).theme == theme;
            assert(entries[i].theme == theme);
        }
        if last == theme {
            assert(entries[entries.len() - 1].theme == theme);
            if !before.contains(last) {
                assert(all[before.len() as int] == theme);
            }
        }
        if exists|i: int| 0 <= i < entries.len() && (#[trigger] entries[i]).theme == theme {
            let i = choose|i: int| 0 <= i < entries.len() && (#[trigger] entries[i]).theme == theme;
            if i < head.len() {
                assert(head[i].theme == theme);
            }
        }
    }
}

impl Store {
    /// Lists the themes in the order of their names, each with the number of its
    /// entries and the time at which the latest of them was stored. With a session,
    /// entries of that session and global ones are looked at.
    pub fn cmd_list(&self, session_id: Option<&str>) -> (r: ThemeList)
        ensures
            views(r.themes@) == theme_summaries(self@.entries.filter(listed(str_of(session_id)))),
    {
        let keep = |e: &Entry| -> (r: bool)
            ensures
                r == listed(str_of(session_id))(e@),
            {
                session_id.is_none() || e.session_id.is_none() || same_optional(
                    &e.session_id,
                    session_id,
                )
            };
        let rows: Vec<&Entry> = select(&self.entries, keep, Ghost(listed(str_of(session_id))));
        let names: Vec<&String> = themes_of(&rows);
        let order: Vec<&String> = rank(&names);
        let mut themes: Vec<ThemeSummary> = Vec::new();
        let mut i: usize = 0;
        while i < order.len()
            invariant
                i == themes@.len() <= order@.len(),
                views(order@) == ranked::<String>(distinct_themes(views(rows@))),
                forall|k: int|
                    0 <= k < i ==> (#[trigger] themes@[k])@ == theme_summary(
                        views(rows@),
                        order@[k]@,
                    ),
            decreases order.len() - i,
        {
            proof {
                let name = order@[i as int]@;
                assert(views(order@)[i as int] == name);
                assert(views(order@).contains(name));
                lemma_ranked_contains::<String>(distinct_themes(views(rows@)), name);
                lemma_distinct_themes(views(rows@), name);
            }
            themes.push(summarize(&rows, order[i]));
            i = i + 1;
        }
        assert(views(themes@) =~= theme_summaries(views(rows@)));
        ThemeList { themes }
    }

    /// Counts the entries and their themes, tells the dimensions of the vectors,
    /// and where the store lies.
    pub fn cmd_status(&self) -> (r: Status)
        ensures
            r.total_entries == self@.entries.len(),
            r.themes == distinct_themes(self@.entries).len(),
            r.vector_dimensions == dimension_of(self@.index),
            is_histogram(r.dimension_histogram@, self@.index),
            r.storage_path@ == self@.storage_path,
    {
        let all = |e: &Entry| -> (r: bool)
            ensures
                r,
            { true };
        let rows: Vec<&Entry> = select(&self.entries, all, Ghost(any_entry()));
        proof {
            lemma_filter_all(self@.entries, any_entry());
        }
        let themes: Vec<&String> = themes_of(&rows);
        Status {
            total_entries: self.entries.len(),
            themes: themes.len(),
            vector_dimensions: self.index.dim(),
            dimension_histogram: self.index.histogram(),
            storage_path: self.storage_path.clone(),
        }
    }
}

} // verus!
