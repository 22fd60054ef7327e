//! Storing entries, deleting themes and rebuilding the index.

use crate::calendar::{iso8601_text, now_f64, now_iso8601};
use crate::codec::{decoded, encode_vector, encoded, law_decode_inverts_encode};
use crate::ids::{generate_entry_id, is_uuid};
use crate::index::{dimension_of, of_other_themes, IndexModel};
use crate::json::{metadata_to_text, stored_metadata};
use crate::numbers::is_time;
use crate::rows::{flag_rows, lemma_kept_all, lemma_ranked_same_rows};
use crate::search::{entry_with_id, position_of};
use crate::store::{
    applied, index_of, loaded_index, sessions_after, IndexChange, Outcome, Plan, SessionChange,
    SessionChangeModel, SessionEdit, SessionEditModel, Store, StoreModel,
};
use crate::tables::{Entry, EntryModel, Memento};
use crate::text::{decimal, push_decimal, same_text, str_of, text_of};
use serde_json::Value;
use vstd::prelude::*;

verus! {

/// The answer to `store`.
pub struct Stored {
    pub theme: String,
}

/// The answer to `delete`.
pub struct Deleted {
    pub deleted: bool,
    pub theme: String,
}

/// The answer to `reindex`.
pub struct Reindexed {
    pub indexed: usize,
}

/// Why a vector of dimension `dimension` cannot be stored, if it cannot: all
/// vectors of the index have one dimension, and none is empty.
pub open spec fn dimension_error(index: Seq<IndexModel>, dimension: nat) -> Option<Seq<char>> {
    if dimension == 0 {
        Some("dimension mismatch: the vector is empty"@)
    } else if index.len() > 0 && dimension != dimension_of(index) {
        Some(
            "dimension mismatch: the index has dimension "@ + decimal(dimension_of(index))
                + ", the vector has dimension "@ + decimal(dimension),
        )
    } else {
        None
    }
}

/// Why an entry with the identifier `id` cannot be added, if it cannot: no two
/// entries have the same identifier.
pub open spec fn entry_id_error(entries: Seq<EntryModel>, id: Seq<char>) -> Option<Seq<char>> {
    if entry_with_id(entries, id) is Some {
        Some("UNIQUE constraint failed: entries.id"@)
    } else {
        None
    }
}

/// Why an entry cannot be stored, if it cannot: because of the dimension of its
/// vector or, failing that, because of its identifier.
pub open spec fn store_error(
    store: StoreModel,
    dimension: nat,
    id: Seq<char>,
) -> Option<Seq<char>> {
    match dimension_error(store.index, dimension) {
        Some(error) => Some(error),
        None => entry_id_error(store.entries, id),
    }
}

/// The row of a new entry.
pub open spec fn new_entry(
    id: Seq<char>,
    theme: Seq<char>,
    content: Seq<char>,
    vector: Seq<u32>,
    stored_at: u64,
    metadata: Option<Value>,
    session: Option<Seq<char>>,
) -> EntryModel {
    EntryModel {
        id,
        theme,
        content,
        vector: encoded(vector),
        stored_at,
        metadata: stored_metadata(metadata),
        session_id: session,
    }
}

/// What storing an entry does to the sessions: its session, if it has one, counts
/// one message more and is updated at `now`.
pub open spec fn message_counted(session: Option<Seq<char>>, now: Seq<char>) -> SessionChangeModel {
    match session {
        Some(id) => SessionChangeModel::Edit(
            SessionEditModel {
                id,
                title: None,
                rolling_summary: None,
                count_message: true,
                updated_at: now,
            },
        ),
        None => SessionChangeModel::Keep,
    }
}

/// The store after an entry has been stored.
pub open spec fn stored_store(store: StoreModel, e: EntryModel, now: Seq<char>) -> StoreModel {
    StoreModel {
        entries: store.entries.push(e),
        sessions: sessions_after(store.sessions, message_counted(e.session_id, now)),
        index: store.index.push(index_of(e)),
        ..store
    }
}

/// The entries of themes other than `theme`.
pub open spec fn outside_theme(theme: Seq<char>) -> spec_fn(EntryModel) -> bool {
    |e: EntryModel| e.theme != theme
}

/// Whether an entry has the theme `theme`.
pub open spec fn has_theme(entries: Seq<EntryModel>, theme: Seq<char>) -> bool {
    exists|i: int| 0 <= i < entries.len() && (#[trigger] entries[i]).theme == theme
}

/// The store after a theme has been deleted.
pub open spec fn deleted_store(store: StoreModel, theme: Seq<char>) -> StoreModel {
    StoreModel {
        entries: store.entries.filter(outside_theme(theme)),
        index: store.index.filter(of_other_themes(theme)),
        ..store
    }
}

/// Why the vector cannot be stored, if it cannot.
fn check_dimension(store: &Store, dimension: usize) -> (error: Option<String>)
    ensures
        text_of(error) == dimension_error(store@.index, dimension as nat),
{
    if dimension == 0 {
        let error: String = "dimension mismatch: the vector is empty".to_string();
        return Some(error);
    }
    if store.index.len() > 0 && dimension != store.index.dim() {
        let mut error: String = "dimension mismatch: the index has dimension ".to_string();
        push_decimal(&mut error, store.index.dim() as u64);
        error.append(", the vector has dimension ");
        push_decimal(&mut error, dimension as u64);
        return Some(error);
    }
    None
}

/// A copy of an optional text.
pub(crate) fn own_optional(s: Option<&str>) -> (r: Option<String>)
    ensures
        text_of(r) == str_of(s),
{
    match s {
        Some(t) => Some(t.to_string()),
        None => None,
    }
}

impl Store {
    /// Plans to store an entry under the identifier `id`, at the time `stored_at`;
    /// `now` is the time as a session shows it.
    pub fn plan_store(
        &self,
        theme: &str,
        content: &str,
        vector: &Vec<u32>,
        metadata: &Option<Value>,
        session_id: Option<&str>,
        id: String,
        stored_at: u64,
        now: String,
    ) -> (r: Result<(Plan, Stored), String>)
        ensures
            match r {
                Ok((plan, reply)) => {
                    &&& store_error(self@, vector@.len(), id@) is None
                    &&& applied(self@, plan@) == stored_store(
                        self@,
                        new_entry(
                            id@,
                            theme@,
                            content@,
                            vector@,
                            stored_at,
                            *metadata,
                            str_of(session_id),
                        ),
                        now@,
                    )
                    &&& plan@.session == message_counted(str_of(session_id), now@)
                    &&& plan@.parts is None
                    &&& plan@.add matches Some(e) && {
                        &&& e.id == id@
                        &&& e.theme == theme@
                        &&& e.content == content@
                        &&& decoded(e.vector) == vector@
                        &&& e.stored_at == stored_at
                        &&& e.metadata == stored_metadata(*metadata)
                        &&& e.session_id == str_of(session_id)
                    }
                    &&& applied(self@, plan@).index.last().vector == vector@
                    &&& reply.theme@ == theme@
                },
                Err(error) => Some(error@) == store_error(self@, vector@.len(), id@),
            },
    {
        if let Some(error) = check_dimension(self, vector.len()) {
            return Err(error);
        }
        let has_id = |e: &Entry| -> (r: bool)
            ensures
                r == (e@.id == id@),
            { same_text(e.id.as_str(), id.as_str()) };
        if position_of(&self.entries, has_id, Ghost(id@)).is_some() {
            return Err("UNIQUE constraint failed: entries.id".to_string());
        }
        let session: SessionChange = match session_id {
            Some(sid) => SessionChange::Edit(
                SessionEdit {
                    id: sid.to_string(),
                    title: None,
                    rolling_summary: None,
                    count_message: true,
                    updated_at: now,
                },
            ),
            None => SessionChange::Keep,
        };
        let entry = Entry {
            id,
            theme: theme.to_string(),
            content: content.to_string(),
            vector: encode_vector(vector),
            stored_at,
            metadata: metadata_to_text(metadata),
            session_id: own_optional(session_id),
        };
        let keep: Vec<bool> = Vec::new();
        let archive: Vec<Memento> = Vec::new();
        let plan = Plan {
            keep,
            parts: None,
            archive,
            add: Some(entry),
            session,
            index: IndexChange::Push,
        };
        proof {
            assert(keep@ =~= Seq::empty());
            lemma_kept_all(self@.entries);
            assert(self@.mementos + plan@.archive =~= self@.mementos);
            law_decode_inverts_encode(vector@);
        }
        Ok((plan, Stored { theme: theme.to_string() }))
    }

    /// Stores an entry. A vector that is empty, or whose dimension is not that of
    /// the index, is refused. The identifier is drawn at random; if it should be
    /// taken already, the entry is refused too.
    pub fn cmd_store(
        &mut self,
        theme: &str,
        content: &str,
        vector: Vec<u32>,
        metadata: Option<Value>,
        session_id: Option<&str>,
    ) -> (r: Result<Stored, String>)
        ensures
            match r {
                Ok(reply) => {
                    &&& dimension_error(old(self)@.index, vector@.len()) is None
                    &&& reply.theme@ == theme@
                    &&& final(self)@.index.len() == old(self)@.index.len() + 1
                    &&& final(self)@.index.last().vector == vector@
                    &&& final(self)@.entries.len() == old(self)@.entries.len() + 1
                    &&& decoded(final(self)@.entries.last().vector) == vector@
                    &&& exists|id: Seq<char>, stored_at: u64, secs: u64|
                        {
                            &&& is_uuid(id)
                            &&& is_time(stored_at)
                            &&& entry_with_id(old(self)@.entries, id) is None
                            &&& final(self)@ == stored_store(
                                old(self)@,
                                #[trigger] new_entry(
                                    id,
                                    theme@,
                                    content@,
                                    vector@,
                                    stored_at,
                                    metadata,
                                    str_of(session_id),
                                ),
                                #[trigger] iso8601_text(secs as nat),
                            )
                        }
                },
                Err(error) => {
                    &&& final(self)@ == old(self)@
                    &&& match dimension_error(old(self)@.index, vector@.len()) {
                        Some(reason) => error@ == reason,
                        None => exists|id: Seq<char>|
                            is_uuid(id) && Some(error@) == #[trigger] entry_id_error(
                                old(self)@.entries,
                                id,
                            ),
                    }
                },
            },
    {
        let id: String = generate_entry_id();
        let stored_at: u64 = now_f64();
        let now: String = now_iso8601();
        let ghost id_text = id@;
        let ghost secs = choose|secs: u64| now@ == #[trigger] iso8601_text(secs as nat);
        match self.plan_store(
            theme,
            content,
            &vector,
            &metadata,
            session_id,
            id,
            stored_at,
            now,
        ) {
            Ok((plan, reply)) => {
                let _ = self.settle(plan, Outcome::Done);
                proof {
                    let e = new_entry(
                        id_text,
                        theme@,
                        content@,
                        vector@,
                        stored_at,
                        metadata,
                        str_of(session_id),
                    );
                    assert(self@ == stored_store(old(self)@, e, iso8601_text(secs as nat)));
                }
                Ok(reply)
            },
            Err(error) => Err(error),
        }
    }

    /// Plans to delete all entries of a theme.
    pub fn plan_delete(&self, theme: &str) -> (r: (Plan, Deleted))
        ensures
            applied(self@, r.0@) == deleted_store(self@, theme@),
            r.0@.parts is None,
            r.1.deleted == has_theme(self@.entries, theme@),
            r.1.theme@ == theme@,
    {
        let keep = |e: &Entry| -> (r: bool)
            ensures
                r == outside_theme(theme@)(e@),
            { !same_text(e.theme.as_str(), theme) };
        let flags: Vec<bool> = flag_rows(&self.entries, keep, Ghost(outside_theme(theme@)));
        let deleted: bool = some_false(&flags);
        proof {
            if has_theme(self@.entries, theme@) {
                let i = choose|i: int|
                    0 <= i < self@.entries.len() && (#[trigger] self@.entries[i]).theme == theme@;
                assert(flags@[i] == outside_theme(theme@)(self.entries@[i]@));
            }
            if deleted {
                let i = choose|i: int| 0 <= i < flags@.len() && !(#[trigger] flags@[i]);
                assert(self@.entries[i].theme == theme@);
            }
        }
        let archive: Vec<Memento> = Vec::new();
        let plan = Plan {
            keep: flags,
            parts: None,
            archive,
            add: None,
            session: SessionChange::Keep,
            index: IndexChange::RemoveTheme(theme.to_string()),
        };
        assert(self@.mementos + plan@.archive =~= self@.mementos);
        (plan, Deleted { deleted, theme: theme.to_string() })
    }

    /// Deletes all entries of a theme, of all sessions.
    pub fn cmd_delete(&mut self, theme: &str) -> (r: Deleted)
        ensures
            final(self)@ == deleted_store(old(self)@, theme@),
            r.deleted == has_theme(old(self)@.entries, theme@),
            r.theme@ == theme@,
    {
        let (plan, reply): (Plan, Deleted) = self.plan_delete(theme);
        let _ = self.settle(plan, Outcome::Done);
        reply
    }

    /// Plans to rebuild the index from the entries.
    pub fn plan_reindex(&self) -> (r: (Plan, Reindexed))
        ensures
            applied(self@, r.0@) == (StoreModel {
                index: loaded_index(self@.entries),
                ..self@
            }),
            r.0@.parts is None,
            r.1.indexed == self@.entries.len(),
    {
        let keep: Vec<bool> = Vec::new();
        let archive: Vec<Memento> = Vec::new();
        let plan = Plan {
            keep,
            parts: None,
            archive,
            add: None,
            session: SessionChange::Keep,
            index: IndexChange::Rebuild,
        };
        proof {
            assert(keep@ =~= Seq::empty());
            lemma_kept_all(self@.entries);
            assert(self@.mementos + plan@.archive =~= self@.mementos);
        }
        (plan, Reindexed { indexed: self.entries.len() })
    }

    /// Rebuilds the index from the entries.
    pub fn cmd_reindex(&mut self) -> (r: Reindexed)
        ensures
            final(self)@ == (StoreModel {
                index: loaded_index(old(self)@.entries),
                ..old(self)@
            }),
            r.indexed == final(self)@.index.len(),
    {
        proof {
            lemma_ranked_same_rows::<Entry>(self@.entries);
        }
        let (plan, reply): (Plan, Reindexed) = self.plan_reindex();
        let _ = self.settle(plan, Outcome::Done);
        reply
    }
}

/// Whether one of the flags is not set.
pub(crate) fn some_false(flags: &Vec<bool>) -> (r: bool)
    ensures
        r == exists|i: int| 0 <= i < flags@.len() && !(#[trigger] flags@[i]),
{
    let mut i: usize = 0;
    while i < flags.len()
        invariant
            i <= flags@.len(),
            forall|k: int| 0 <= k < i ==> #[trigger] flags@[k],
        decreases flags.len() - i,
    {
        if !flags[i] {
            return true;
        }
        i = i + 1;
    }
    false
}

} // verus!
