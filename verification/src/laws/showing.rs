//! Laws of what rows and answers stand for: each field for itself.

use crate::index::{Hit, IndexEntry};
use crate::json::{json_text, json_value, read_metadata, stored_metadata};
use crate::listing::ThemeSummary;
use crate::mementos::PeekedMemento;
use crate::recall::RecalledEntry;
use crate::rows::views;
use crate::search::FoundEntry;
use crate::sessions::SessionSummary;
use crate::store::{
    IndexChange, IndexChangeModel, Plan, SessionChange, SessionChangeModel, SessionEdit, Store,
};
use crate::tables::{Entry, Memento, Session};
use crate::text::{str_of, text_of};
use serde_json::Value;
use vstd::prelude::*;

verus! {

/// An optional text stands for its characters, if it is there.
pub proof fn law_optional_text(owned: Option<String>, borrowed: Option<&str>)
    ensures
        owned is Some <==> text_of(owned) is Some,
        owned is Some ==> text_of(owned)->0 == owned->0@,
        borrowed is Some <==> str_of(borrowed) is Some,
        borrowed is Some ==> str_of(borrowed)->0 == borrowed->0@,
{
}

/// Rows stand for what each of them stands for, one by one.
pub proof fn law_views<T: View>(rows: Seq<T>)
    ensures
        views(rows).len() == rows.len(),
        forall|i: int| 0 <= i < rows.len() ==> #[trigger] views(rows)[i] == rows[i]@,
{
}

/// An entry stands for its fields.
pub proof fn law_entry_fields(e: Entry)
    ensures
        e@.id == e.id@,
        e@.theme == e.theme@,
        e@.content == e.content@,
        e@.vector == e.vector@,
        e@.stored_at == e.stored_at,
        e@.metadata == text_of(e.metadata),
        e@.session_id == text_of(e.session_id),
{
}

/// A memento stands for its fields.
pub proof fn law_memento_fields(m: Memento)
    ensures
        m@.id == m.id@,
        m@.theme == m.theme@,
        m@.content == m.content@,
        m@.vector == m.vector@,
        m@.stored_at == m.stored_at,
        m@.archived_at == m.archived_at,
        m@.metadata == text_of(m.metadata),
        m@.session_id == text_of(m.session_id),
{
}

/// A session stands for its fields.
pub proof fn law_session_fields(s: Session)
    ensures
        s@.id == s.id@,
        s@.title == s.title@,
        s@.created_at == s.created_at@,
        s@.updated_at == s.updated_at@,
        s@.message_count == s.message_count,
        s@.rolling_summary == s.rolling_summary@,
{
}

/// An entry of the index and a hit stand for their fields.
pub proof fn law_index_fields(e: IndexEntry, h: Hit)
    ensures
        e@.id == e.id@,
        e@.theme == e.theme@,
        e@.vector == e.vector@,
        e@.session_id == text_of(e.session_id),
        h@.score == h.score,
        h@.id == h.id@,
{
}

/// What `recall`, `search` and `peek_memento` tell stands for its fields.
pub proof fn law_told_fields(r: RecalledEntry, f: FoundEntry, p: PeekedMemento)
    ensures
        r@.content == r.content@,
        r@.theme == r.theme@,
        r@.stored_at == r.stored_at,
        r@.metadata == r.metadata,
        r@.session_id == text_of(r.session_id),
        f@.content == f.content@,
        f@.theme == f.theme@,
        f@.score == f.score,
        f@.stored_at == f.stored_at,
        f@.session_id == text_of(f.session_id),
        p@.content == p.content@,
        p@.stored_at == p.stored_at@,
        p@.archived_at == p.archived_at@,
        p@.metadata == p.metadata,
{
}

/// What `list` and `list_sessions` tell stands for its fields.
pub proof fn law_summary_fields(t: ThemeSummary, s: SessionSummary)
    ensures
        t@.theme == t.theme@,
        t@.entries == t.entries,
        t@.last_modified == t.last_modified@,
        s@.id == s.id@,
        s@.title == s.title@,
        s@.created_at == s.created_at@,
        s@.updated_at == s.updated_at@,
        s@.message_count == s.message_count,
{
}

/// A store stands for its rows and its index.
pub proof fn law_store_fields(store: Store)
    ensures
        store@.entries == views(store.entries@),
        store@.sessions == views(store.sessions@),
        store@.mementos == views(store.mementos@),
        store@.index == store.index@,
        store@.storage_path == store.storage_path@,
{
}

/// A plan stands for its fields.
pub proof fn law_plan_fields(plan: Plan)
    ensures
        plan@.keep == plan.keep@,
        plan@.archive == views(plan.archive@),
        plan@.session == plan.session@,
        plan@.index == plan.index@,
        plan.parts is Some <==> plan@.parts is Some,
        plan.parts is Some ==> plan@.parts->0 == plan.parts->0@,
        plan.add is Some <==> plan@.add is Some,
        plan.add is Some ==> plan@.add->0 == plan.add->0@,
{
}

/// A change to the sessions stands for its own kind and its fields.
pub proof fn law_session_change_fields(change: SessionChange, edit: SessionEdit)
    ensures
        change is Keep <==> change@ is Keep,
        change matches SessionChange::Insert(s) ==> change@ == SessionChangeModel::Insert(s@),
        change matches SessionChange::Edit(e) ==> change@ == SessionChangeModel::Edit(e@),
        change matches SessionChange::Remove(id) ==> change@ == SessionChangeModel::Remove(id@),
        edit@.id == edit.id@,
        edit@.title == text_of(edit.title),
        edit@.rolling_summary == text_of(edit.rolling_summary),
        edit@.count_message == edit.count_message,
        edit@.updated_at == edit.updated_at@,
{
}

/// A change to the index stands for its own kind and its fields.
pub proof fn law_index_change_fields(change: IndexChange)
    ensures
        change is Keep <==> change@ is Keep,
        change is Push <==> change@ is Push,
        change is Rebuild <==> change@ is Rebuild,
        change matches IndexChange::RemoveTheme(theme) ==> change@
            == IndexChangeModel::RemoveTheme(theme@),
        change matches IndexChange::ReplaceActive(theme, session) ==> change@
            == IndexChangeModel::ReplaceActive(theme@, text_of(session)),
        change matches IndexChange::RemoveSession(id) ==> change@
            == IndexChangeModel::RemoveSession(id@),
{
}

/// Metadata are stored as the text of their value, and none as none; stored text stands
/// for the value that it holds, and for none if it holds none.
pub proof fn law_metadata_text(value: Value, text: Seq<char>)
    ensures
        stored_metadata(Some(value)) == Some(json_text(value)),
        stored_metadata(None) is None,
        read_metadata(Some(text)) == json_value(text),
        read_metadata(None) is None,
{
}

} // verus!
