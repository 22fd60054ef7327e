//! Chat sessions.

use crate::calendar::{iso8601_text, now_iso8601};
use crate::ids::{generate_session_id, is_session_id};
use crate::index::of_other_sessions;
use crate::rows::{
    flag_rows, kept, lemma_filter_all, lemma_kept_all, rank, ranked, select, views, window,
};
use crate::store::{
    applied, other_than, sessions_after, IndexChange, Outcome, Plan, SessionChange,
    SessionChangeModel, SessionEdit, SessionEditModel, Store, StoreModel,
};
use crate::tables::{Entry, EntryModel, Memento, Session, SessionModel};
use crate::text::{same_optional, same_text, text_of};
use vstd::prelude::*;

verus! {

/// The answer to `create_session`.
pub struct Created {
    pub session_id: String,
    pub created_at: String,
}

/// What `list_sessions` tells of a session.
pub struct SessionSummary {
    pub id: String,
    pub title: String,
    pub created_at: String,
    pub updated_at: String,
    pub message_count: i64,
}

/// What a `SessionSummary` stands for.
pub struct SummaryModel {
    pub id: Seq<char>,
    pub title: Seq<char>,
    pub created_at: Seq<char>,
    pub updated_at: Seq<char>,
    pub message_count: i64,
}

impl View for SessionSummary {
    type V = SummaryModel;

    open spec fn view(&self) -> SummaryModel {
        SummaryModel {
            id: self.id@,
            title: self.title@,
            created_at: self.created_at@,
            updated_at: self.updated_at@,
            message_count: self.message_count,
        }
    }
}

/// The answer to `list_sessions`.
pub struct SessionList {
    pub sessions: Vec<SessionSummary>,
}

/// The answer to `delete_session`.
pub struct SessionDeleted {
    pub deleted_entries: usize,
}

/// The session with the identifier `id`, if there is one.
pub open spec fn session_with_id(
    sessions: Seq<SessionModel>,
    id: Seq<char>,
) -> Option<SessionModel>
    decreases sessions.len(),
{
    if sessions.len() == 0 {
        None
    } else if sessions.last().id == id {
        Some(sessions.last())
    } else {
        session_with_id(sessions.drop_last(), id)
    }
}

/// The title that a session gets: a standing one if none is given.
pub open spec fn effective_title(title: Seq<char>) -> Seq<char> {
    if title.len() == 0 {
        "New chat"@
    } else {
        title
    }
}

/// A session as it is created.
pub open spec fn new_session(id: Seq<char>, title: Seq<char>, now: Seq<char>) -> SessionModel {
    SessionModel {
        id,
        title: effective_title(title),
        created_at: now,
        updated_at: now,
        message_count: 0,
        rolling_summary: Seq::empty(),
    }
}

/// Why a session with the identifier `id` cannot be added, if it cannot: no two
/// sessions have the same identifier.
pub open spec fn session_id_error(
    sessions: Seq<SessionModel>,
    id: Seq<char>,
) -> Option<Seq<char>> {
    if session_with_id(sessions, id) is Some {
        Some("UNIQUE constraint failed: sessions.id"@)
    } else {
        None
    }
}

/// The store with one session more.
pub open spec fn with_session(store: StoreModel, s: SessionModel) -> StoreModel {
    StoreModel { sessions: store.sessions.push(s), ..store }
}

/// The sessions in the order of `list_sessions`: the one updated last first. An
/// offset that is no signed 64-bit number passes over nothing.
pub open spec fn session_page(
    sessions: Seq<SessionModel>,
    limit: nat,
    offset: nat,
) -> Seq<SessionModel> {
    window(
        ranked::<Session>(sessions),
        if offset > i64::MAX {
            0
        } else {
            offset
        },
        limit,
    )
}

/// What `list_sessions` tells of a session.
pub open spec fn session_summary(s: SessionModel) -> SummaryModel {
    SummaryModel {
        id: s.id,
        title: s.title,
        created_at: s.created_at,
        updated_at: s.updated_at,
        message_count: s.message_count,
    }
}

/// What `list_sessions` tells of sessions.
pub open spec fn session_summaries(sessions: Seq<SessionModel>) -> Seq<SummaryModel> {
    Seq::new(sessions.len(), |i: int| session_summary(sessions[i]))
}

/// Why there is no session with the identifier `id`.
pub open spec fn not_found(id: Seq<char>) -> Seq<char> {
    "session not found: "@ + id
}

/// The store after columns of a session have been changed. Nothing changes if
/// there is no such session.
pub open spec fn updated_store(store: StoreModel, edit: SessionEditModel) -> StoreModel {
    StoreModel {
        sessions: sessions_after(store.sessions, SessionChangeModel::Edit(edit)),
        ..store
    }
}

/// The change that `update_session` makes.
pub open spec fn session_update(
    id: Seq<char>,
    title: Option<Seq<char>>,
    rolling_summary: Option<Seq<char>>,
    now: Seq<char>,
) -> SessionEditModel {
    SessionEditModel { id, title, rolling_summary, count_message: false, updated_at: now }
}

/// The entries that do not belong to the session `id`.
pub open spec fn outside_session(id: Seq<char>) -> spec_fn(EntryModel) -> bool {
    |e: EntryModel| e.session_id != Some(id)
}

/// The store after a session has been deleted, with its entries. Its mementos stay.
pub open spec fn without_session(store: StoreModel, id: Seq<char>) -> StoreModel {
    StoreModel {
        entries: store.entries.filter(outside_session(id)),
        sessions: store.sessions.filter(other_than(id)),
        index: store.index.filter(of_other_sessions(id)),
        ..store
    }
}

/// All entries in the first part.
pub open spec fn one_part(count: nat) -> Seq<usize> {
    Seq::new(count, |i: int| 0)
}

/// Accepts all sessions.
spec fn any_session() -> spec_fn(SessionModel) -> bool {
    |s: SessionModel| true
}

/// All entries in the first part.
fn first_part(count: usize) -> (parts: Vec<usize>)
    ensures
        parts@ == one_part(count as nat),
{
    let mut parts: Vec<usize> = Vec::new();
    while parts.len() < count
        invariant
            parts@.len() <= count,
            forall|k: int| 0 <= k < parts@.len() ==> #[trigger] parts@[k] == 0,
        decreases count - parts.len(),
    {
        parts.push(0);
    }
    assert(parts@ =~= one_part(count as nat));
    parts
}

/// A copy of a session.
fn copy_session(s: &Session) -> (r: Session)
    ensures
        r@ == s@,
{
    Session {
        id: s.id.clone(),
        title: s.title.clone(),
        created_at: s.created_at.clone(),
        updated_at: s.updated_at.clone(),
        message_count: s.message_count,
        rolling_summary: s.rolling_summary.clone(),
    }
}

/// A copy of the session with the identifier `id`, if there is one.
fn find_session(sessions: &Vec<Session>, id: &str) -> (found: Option<Session>)
    ensures
        match found {
            Some(s) => session_with_id(views(sessions@), id@) == Some(s@),
            None => session_with_id(views(sessions@), id@) is None,
        },
{
    let ghost all = views(sessions@);
    let mut i: usize = sessions.len();
    assert(all.take(i as int) =~= all);
    while i > 0
        invariant
            i <= sessions@.len(),
            all == views(sessions@),
            session_with_id(all, id@) == session_with_id(all.take(i as int), id@),
        decreases i,
    {
        proof {
            let head = all.take(i as int);
            assert(head.drop_last() =~= all.take(i - 1));
            assert(head.last() == sessions@[i - 1]@);
        }
        i = i - 1;
        if same_text(sessions[i].id.as_str(), id) {
            return Some(copy_session(&sessions[i]));
        }
    }
    None
}

/// How many flags are not set.
fn count_unset(flags: &Vec<bool>) -> (count: usize)
    ensures
        forall|rows: Seq<EntryModel>|
            rows.len() == flags@.len() ==> count == rows.len() - #[trigger] kept(
                rows,
                flags@,
            ).len(),
{
    let mut count: usize = 0;
    let mut i: usize = 0;
    while i < flags.len()
        invariant
            count <= i <= flags@.len(),
            forall|rows: Seq<EntryModel>|
                rows.len() == i ==> count == rows.len() - #[trigger] kept(
                    rows,
                    flags@,
                ).len(),
        decreases flags.len() - i,
    {
        let before: usize = count;
        if !flags[i] {
            count = count + 1;
        }
        proof {
            assert forall|rows: Seq<EntryModel>| rows.len() == i + 1 implies count == rows.len()
                - #[trigger] kept(rows, flags@).len() by {
                let head = rows.drop_last();
                assert(before == head.len() - kept(head, flags@).len());
            }
        }
        i = i + 1;
    }
    count
}

impl Store {
    /// Plans to create a session with the identifier `id`, at the time `now`.
    pub fn plan_create_session(&self, title: &str, id: String, now: String) -> (r: Result<
        (Plan, Created),
        String,
    >)
        ensures
            match r {
                Ok((plan, reply)) => {
                    &&& session_id_error(self@.sessions, id@) is None
                    &&& applied(self@, plan@) == with_session(
                        self@,
                        new_session(id@, title@, now@),
                    )
                    &&& plan@.parts is None
                    &&& reply.session_id@ == id@
                    &&& reply.created_at@ == now@
                },
                Err(error) => Some(error@) == session_id_error(self@.sessions, id@),
            },
    {
        if find_session(&self.sessions, id.as_str()).is_some() {
            return Err("UNIQUE constraint failed: sessions.id".to_string());
        }
        let reply = Created { session_id: id.clone(), created_at: now.clone() };
        let title: String = if title.is_empty() {
            "New chat".to_string()
        } else {
            title.to_string()
        };
        let created_at: String = now.clone();
        let session = Session {
            id,
            title,
            created_at,
            updated_at: now,
            message_count: 0,
            rolling_summary: String::new(),
        };
        let keep: Vec<bool> = Vec::new();
        let archive: Vec<Memento> = Vec::new();
        let plan = Plan {
            keep,
            parts: None,
            archive,
            add: None,
            session: SessionChange::Insert(session),
            index: IndexChange::Keep,
        };
        proof {
            assert(keep@ =~= Seq::empty());
            lemma_kept_all(self@.entries);
            assert(self@.mementos + plan@.archive =~= self@.mementos);
        }
        Ok((plan, reply))
    }

    /// Creates a session. The identifier is drawn at random; if it should be taken
    /// already, no session is created.
    pub fn cmd_create_session(&mut self, title: &str) -> (r: Result<Created, String>)
        ensures
            match r {
                Ok(reply) => {
                    &&& is_session_id(reply.session_id@)
                    &&& exists|secs: u64| reply.created_at@ == #[trigger] iso8601_text(secs as nat)
                    &&& session_with_id(old(self)@.sessions, reply.session_id@) is None
                    &&& final(self)@ == with_session(
                        old(self)@,
                        new_session(reply.session_id@, title@, reply.created_at@),
                    )
                },
                Err(error) => {
                    &&& final(self)@ == old(self)@
                    &&& exists|id: Seq<char>|
                        is_session_id(id) && Some(error@) == #[trigger] session_id_error(
                            old(self)@.sessions,
                            id,
                        )
                },
            },
    {
        let id: String = generate_session_id();
        let now: String = now_iso8601();
        let ghost id_text = id@;
        match self.plan_create_session(title, id, now) {
            Ok((plan, reply)) => {
                let _ = self.settle(plan, Outcome::Done);
                Ok(reply)
            },
            Err(error) => {
                assert(Some(error@) == session_id_error(self@.sessions, id_text));
                Err(error)
            },
        }
    }

    /// Lists sessions, the one updated last first: at most `limit`, after passing
    /// over `offset`.
    pub fn cmd_list_sessions(&self, limit: usize, offset: usize) -> (r: SessionList)
        ensures
            views(r.sessions@) == session_summaries(
                session_page(self@.sessions, limit as nat, offset as nat),
            ),
    {
        let all = |s: &Session| -> (r: bool)
            ensures
                r,
            { true };
        let rows: Vec<&Session> = select(&self.sessions, all, Ghost(any_session()));
        proof {
            lemma_filter_all(self@.sessions, any_session());
        }
        let order: Vec<&Session> = rank(&rows);
        let wanted: usize = if offset as u64 > i64::MAX as u64 {
            0
        } else {
            offset
        };
        let start: usize = if order.len() <= wanted {
            order.len()
        } else {
            wanted
        };
        let ghost page = session_page(self@.sessions, limit as nat, offset as nat);
        let mut sessions: Vec<SessionSummary> = Vec::new();
        let mut i: usize = start;
        while i < order.len() && sessions.len() < limit
            invariant
                start <= i <= order@.len(),
                sessions@.len() == i - start <= limit,
                forall|k: int|
                    0 <= k < sessions@.len() ==> (#[trigger] sessions@[k])@ == session_summary(
                        order@[start + k]@,
                    ),
            decreases order.len() - i,
        {
            let row: &Session = order[i];
            sessions.push(
                SessionSummary {
                    id: row.id.clone(),
                    title: row.title.clone(),
                    created_at: row.created_at.clone(),
                    updated_at: row.updated_at.clone(),
                    message_count: row.message_count,
                },
            );
            i = i + 1;
        }
        assert(page =~= views(order@).skip(start as int).take(sessions@.len() as int));
        assert(views(sessions@) =~= session_summaries(page));
        SessionList { sessions }
    }

    /// Returns all there is to know of a session.
    pub fn cmd_get_session(&self, session_id: &str) -> (r: Result<Session, String>)
        ensures
            match r {
                Ok(session) => session_with_id(self@.sessions, session_id@) == Some(session@),
                Err(error) => session_with_id(self@.sessions, session_id@) is None && error@
                    == not_found(session_id@),
            },
    {
        match find_session(&self.sessions, session_id) {
            Some(session) => Ok(session),
            None => {
                let mut error: String = "session not found: ".to_string();
                error.append(session_id);
                Err(error)
            },
        }
    }

    /// Plans to change the title of a session, its rolling summary, or both.
    pub fn plan_update_session(
        &self,
        session_id: &str,
        title: Option<String>,
        rolling_summary: Option<String>,
        now: String,
    ) -> (plan: Plan)
        ensures
            applied(self@, plan@) == updated_store(
                self@,
                session_update(session_id@, text_of(title), text_of(rolling_summary), now@),
            ),
            plan@.parts is None,
    {
        let edit = SessionEdit {
            id: session_id.to_string(),
            title,
            rolling_summary,
            count_message: false,
            updated_at: now,
        };
        let keep: Vec<bool> = Vec::new();
        let archive: Vec<Memento> = Vec::new();
        let plan = Plan {
            keep,
            parts: None,
            archive,
            add: None,
            session: SessionChange::Edit(edit),
            index: IndexChange::Keep,
        };
        proof {
            assert(keep@ =~= Seq::empty());
            lemma_kept_all(self@.entries);
            assert(self@.mementos + plan@.archive =~= self@.mementos);
        }
        plan
    }

    /// Changes the title of a session, its rolling summary, or both. The session
    /// counts as updated even if neither is given.
    pub fn cmd_update_session(
        &mut self,
        session_id: &str,
        title: Option<String>,
        rolling_summary: Option<String>,
    )
        ensures
            exists|secs: u64|
                final(self)@ == updated_store(
                    old(self)@,
                    session_update(
                        session_id@,
                        text_of(title),
                        text_of(rolling_summary),
                        #[trigger] iso8601_text(secs as nat),
                    ),
                ),
    {
        let now: String = now_iso8601();
        let plan: Plan = self.plan_update_session(session_id, title, rolling_summary, now);
        let _ = self.settle(plan, Outcome::Done);
    }

    /// Plans to delete a session and its entries. The entries leave first, as one part.
    pub fn plan_delete_session(&self, session_id: &str) -> (r: (Plan, SessionDeleted))
        ensures
            applied(self@, r.0@) == without_session(self@, session_id@),
            r.0@.keep == Seq::new(
                self@.entries.len(),
                |i: int| outside_session(session_id@)(self@.entries[i]),
            ),
            r.0@.parts == Some(one_part(self@.entries.len())),
            r.1.deleted_entries == self@.entries.len() - without_session(
                self@,
                session_id@,
            ).entries.len(),
    {
        let keep = |e: &Entry| -> (r: bool)
            ensures
                r == outside_session(session_id@)(e@),
            { !same_optional(&e.session_id, Some(session_id)) };
        let flags: Vec<bool> = flag_rows(&self.entries, keep, Ghost(outside_session(session_id@)));
        let deleted_entries: usize = count_unset(&flags);
        assert(deleted_entries == self@.entries.len() - kept(
            self@.entries,
            flags@,
        ).len());
        let archive: Vec<Memento> = Vec::new();
        let plan = Plan {
            keep: flags,
            parts: Some(first_part(self.entries.len())),
            archive,
            add: None,
            session: SessionChange::Remove(session_id.to_string()),
            index: IndexChange::RemoveSession(session_id.to_string()),
        };
        assert(self@.mementos + plan@.archive =~= self@.mementos);
        assert(plan@.keep =~= Seq::new(
            self@.entries.len(),
            |i: int| outside_session(session_id@)(self@.entries[i]),
        ));
        (plan, SessionDeleted { deleted_entries })
    }

    /// Deletes a session and its entries, and says how many entries those were.
    pub fn cmd_delete_session(&mut self, session_id: &str) -> (r: SessionDeleted)
        ensures
            final(self)@ == without_session(old(self)@, session_id@),
            r.deleted_entries == old(self)@.entries.len() - final(self)@.entries.len(),
    {
        let (plan, reply): (Plan, SessionDeleted) = self.plan_delete_session(session_id);
        let _ = self.settle(plan, Outcome::Done);
        reply
    }
}

} // verus!
