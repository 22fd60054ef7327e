//! Recalling the latest entries of a theme.

use crate::json::{metadata_from_text, read_metadata};
use crate::rows::{last_rows, rank, ranked, select, views};
use crate::store::{copy_optional, Store};
use crate::tables::{Entry, EntryModel};
use crate::text::{same_optional, same_text, str_of, text_of};
use serde_json::Value;
use vstd::prelude::*;

verus! {

/// What `recall` tells of an entry. Metadata is absent if none was stored or if
/// its text is no JSON.
pub struct RecalledEntry {
    pub content: String,
    pub theme: String,
    pub stored_at: u64,
    pub metadata: Option<Value>,
    pub session_id: Option<String>,
}

/// What a `RecalledEntry` stands for.
pub struct RecalledModel {
    pub content: Seq<char>,
    pub theme: Seq<char>,
    pub stored_at: u64,
    pub metadata: Option<Value>,
    pub session_id: Option<Seq<char>>,
}

impl View for RecalledEntry {
    type V = RecalledModel;

    open spec fn view(&self) -> RecalledModel {
        RecalledModel {
            content: self.content@,
            theme: self.theme@,
            stored_at: self.stored_at,
            metadata: self.metadata,
            session_id: text_of(self.session_id),
        }
    }
}

/// The answer to `recall`.
pub struct Recalled {
    pub theme: String,
    pub entries: Vec<RecalledEntry>,
    pub found: bool,
}

/// The entries of a theme; with a session, those of that session alone.
pub open spec fn recall_matches(
    theme: Seq<char>,
    session: Option<Seq<char>>,
) -> spec_fn(EntryModel) -> bool {
    |e: EntryModel| e.theme == theme && (session is None || e.session_id == session)
}

/// The latest `limit` matching entries, oldest first; of entries stored at the
/// same instant, the one added later counts as the later one.
pub open spec fn latest_entries(
    entries: Seq<EntryModel>,
    theme: Seq<char>,
    session: Option<Seq<char>>,
    limit: nat,
) -> Seq<EntryModel> {
    last_rows(ranked::<Entry>(entries.filter(recall_matches(theme, session))), limit)
}

/// What `recall` tells of an entry.
pub open spec fn recalled_entry(e: EntryModel) -> RecalledModel {
    RecalledModel {
        content: e.content,
        theme: e.theme,
        stored_at: e.stored_at,
        metadata: read_metadata(e.metadata),
        session_id: e.session_id,
    }
}

/// What `recall` tells of entries.
pub open spec fn recalled_entries(entries: Seq<EntryModel>) -> Seq<RecalledModel> {
    Seq::new(entries.len(), |i: int| recalled_entry(entries[i]))
}

impl Store {
    /// Recalls the `limit` most recent entries of a theme, oldest first. With a
    /// session, only entries of that session are recalled.
    pub fn cmd_recall(&self, theme: &str, limit: usize, session_id: Option<&str>) -> (r: Recalled)
        ensures
            r.theme@ == theme@,
            views(r.entries@) == recalled_entries(
                latest_entries(self@.entries, theme@, str_of(session_id), limit as nat),
            ),
            r.found == (r.entries@.len() > 0),
    {
        let keep = |e: &Entry| -> (r: bool)
            ensures
                r == recall_matches(theme@, str_of(session_id))(e@),
            {
                same_text(e.theme.as_str(), theme) && (session_id.is_none() || same_optional(
                    &e.session_id,
                    session_id,
                ))
            };
        let matching: Vec<&Entry> = select(
            &self.entries,
            keep,
            Ghost(recall_matches(theme@, str_of(session_id))),
        );
        let order: Vec<&Entry> = rank(&matching);
        let start: usize = if order.len() <= limit {
            0
        } else {
            order.len() - limit
        };
        let ghost chosen = latest_entries(self@.entries, theme@, str_of(session_id), limit as nat);
        assert(chosen =~= views(order@).skip(start as int));
        let mut entries: Vec<RecalledEntry> = Vec::new();
        let mut i: usize = start;
        while i < order.len()
            invariant
                start <= i <= order@.len(),
                entries@.len() == i - start,
                chosen == views(order@).skip(start as int),
                forall|k: int|
                    0 <= k < entries@.len() ==> (#[trigger] entries@[k])@ == recalled_entry(
                        chosen[k],
                    ),
            decreases order.len() - i,
        {
            let row: &Entry = order[i];
            entries.push(
                RecalledEntry {
                    content: row.content.clone(),
                    theme: row.theme.clone(),
                    stored_at: row.stored_at,
                    metadata: metadata_from_text(&row.metadata),
                    session_id: copy_optional(&row.session_id),
                },
            );
            i = i + 1;
        }
        assert(views(entries@) =~= recalled_entries(chosen));
        let found: bool = entries.len() > 0;
        Recalled { theme: theme.to_string(), entries, found }
    }
}

} // verus!
