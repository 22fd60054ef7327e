//! The rows of the three tables: entries, sessions and mementos.

use crate::numbers::{double_key, double_order};
use crate::rows::Ranked;
use crate::text::{
    lemma_text_le_total, lemma_text_le_transitive, text_le, text_not_after, text_of,
};
use vstd::prelude::*;

verus! {

/// An entry as it is stored. Times are seconds since the Unix epoch, as the bit
/// patterns of doubles. An entry without a session is global.
pub struct Entry {
    pub id: String,
    pub theme: String,
    pub content: String,
    pub vector: Vec<u8>,
    pub stored_at: u64,
    pub metadata: Option<String>,
    pub session_id: Option<String>,
}

/// What an `Entry` stands for.
pub struct EntryModel {
    pub id: Seq<char>,
    pub theme: Seq<char>,
    pub content: Seq<char>,
    pub vector: Seq<u8>,
    pub stored_at: u64,
    pub metadata: Option<Seq<char>>,
    pub session_id: Option<Seq<char>>,
}

impl View for Entry {
    type V = EntryModel;

    open spec fn view(&self) -> EntryModel {
        EntryModel {
            id: self.id@,
            theme: self.theme@,
            content: self.content@,
            vector: self.vector@,
            stored_at: self.stored_at,
            metadata: text_of(self.metadata),
            session_id: text_of(self.session_id),
        }
    }
}

/// An entry that was replaced or forgotten.
pub struct Memento {
    pub id: String,
    pub theme: String,
    pub content: String,
    pub vector: Vec<u8>,
    pub stored_at: u64,
    pub archived_at: u64,
    pub metadata: Option<String>,
    pub session_id: Option<String>,
}

/// What a `Memento` stands for.
pub struct MementoModel {
    pub id: Seq<char>,
    pub theme: Seq<char>,
    pub content: Seq<char>,
    pub vector: Seq<u8>,
    pub stored_at: u64,
    pub archived_at: u64,
    pub metadata: Option<Seq<char>>,
    pub session_id: Option<Seq<char>>,
}

impl View for Memento {
    type V = MementoModel;

    open spec fn view(&self) -> MementoModel {
        MementoModel {
            id: self.id@,
            theme: self.theme@,
            content: self.content@,
            vector: self.vector@,
            stored_at: self.stored_at,
            archived_at: self.archived_at,
            metadata: text_of(self.metadata),
            session_id: text_of(self.session_id),
        }
    }
}

/// A chat session.
pub struct Session {
    pub id: String,
    pub title: String,
    pub created_at: String,
    pub updated_at: String,
    pub message_count: i64,
    pub rolling_summary: String,
}

/// What a `Session` stands for.
pub struct SessionModel {
    pub id: Seq<char>,
    pub title: Seq<char>,
    pub created_at: Seq<char>,
    pub updated_at: Seq<char>,
    pub message_count: i64,
    pub rolling_summary: Seq<char>,
}

impl View for Session {
    type V = SessionModel;

    open spec fn view(&self) -> SessionModel {
        SessionModel {
            id: self.id@,
            title: self.title@,
            created_at: self.created_at@,
            updated_at: self.updated_at@,
            message_count: self.message_count,
            rolling_summary: self.rolling_summary@,
        }
    }
}

/// Entries are ordered by the time at which they were stored.
impl Ranked for Entry {
    open spec fn precedes(a: EntryModel, b: EntryModel) -> bool {
        double_key(a.stored_at) <= double_key(b.stored_at)
    }

    proof fn lemma_total(a: EntryModel, b: EntryModel) {
    }

    proof fn lemma_transitive(a: EntryModel, b: EntryModel, c: EntryModel) {
    }

    fn not_after(&self, other: &Self) -> (r: bool) {
        double_order(self.stored_at) <= double_order(other.stored_at)
    }
}

/// Mementos are ordered by the time at which they were archived.
impl Ranked for Memento {
    open spec fn precedes(a: MementoModel, b: MementoModel) -> bool {
        double_key(a.archived_at) <= double_key(b.archived_at)
    }

    proof fn lemma_total(a: MementoModel, b: MementoModel) {
    }

    proof fn lemma_transitive(a: MementoModel, b: MementoModel, c: MementoModel) {
    }

    fn not_after(&self, other: &Self) -> (r: bool) {
        double_order(self.archived_at) <= double_order(other.archived_at)
    }
}

/// Sessions are ordered by the time of their last change, the latest first.
impl Ranked for Session {
    open spec fn precedes(a: SessionModel, b: SessionModel) -> bool {
        text_le(b.updated_at, a.updated_at)
    }

    proof fn lemma_total(a: SessionModel, b: SessionModel) {
        lemma_text_le_total(a.updated_at, b.updated_at);
    }

    proof fn lemma_transitive(a: SessionModel, b: SessionModel, c: SessionModel) {
        lemma_text_le_transitive(c.updated_at, b.updated_at, a.updated_at);
    }

    fn not_after(&self, other: &Self) -> (r: bool) {
        text_not_after(other.updated_at.as_str(), self.updated_at.as_str())
    }
}

/// Theme names are ordered by their bytes.
impl Ranked for String {
    open spec fn precedes(a: Seq<char>, b: Seq<char>) -> bool {
        text_le(a, b)
    }

    proof fn lemma_total(a: Seq<char>, b: Seq<char>) {
        lemma_text_le_total(a, b);
    }

    proof fn lemma_transitive(a: Seq<char>, b: Seq<char>, c: Seq<char>) {
        lemma_text_le_transitive(a, b, c);
    }

    fn not_after(&self, other: &Self) -> (r: bool) {
        text_not_after(self.as_str(), other.as_str())
    }
}

} // verus!
