//! Commands, their defaults and their answers.
//!
//! A command is planned with what was drawn for it: identifiers and times. What
//! it answers, and what it leaves behind, depends on nothing else.

use crate::calendar::{iso8601_text, now_f64, now_iso8601};
use crate::ids::{generate_entry_id, generate_session_id, is_session_id, is_uuid};
use crate::index::{dimension_of, is_histogram};
use crate::listing::{distinct_themes, listed, theme_summaries, Status, ThemeList};
use crate::mementos::{
    active, latest_mementos, peeked_mementos, replace_error, replaced_store, replacement,
    replacement_id, Peeked, Replaced,
};
use crate::numbers::is_time;
use crate::recall::{latest_entries, recalled_entries, Recalled};
use crate::retention::{prune_parts, pruned_store, staying, Pruned};
use crate::rows::{lemma_ranked_same_rows, views};
use crate::search::{search_answer, Found, FoundModel};
use crate::sessions::{
    new_session, not_found, one_part, outside_session, session_id_error, session_page,
    session_summaries, session_update, session_with_id, updated_store, with_session,
    without_session, Created, SessionDeleted, SessionList,
};
use crate::store::{
    applied, loaded_index, possible, settled, Outcome, Plan, PlanModel, Store, StoreModel,
};
use crate::tables::{Entry, Session};
use crate::text::{as_text, text_of};
use crate::writing::{
    deleted_store, has_theme, message_counted, new_entry, store_error, stored_store, Deleted,
    Reindexed, Stored,
};
use serde_json::Value;
use vstd::prelude::*;

verus! {

/// A command. Vectors and scores hold bit patterns of singles, the cutoff of
/// `Prune` is the bit pattern of a double.
#[allow(inconsistent_fields)]
pub enum Command {
    /// Store a memory entry with its pre-computed vector.
    Store {
        theme: String,
        content: String,
        vector: Vec<u32>,
        metadata: Option<Value>,
        /// Scopes the entry to a session. Absent: a global entry.
        session_id: Option<String>,
    },
    /// Recall the most recent entries of a theme, oldest first.
    Recall {
        theme: String,
        limit: usize,
        /// If present, only entries of that session.
        session_id: Option<String>,
    },
    /// Find entries by similarity; `scores` holds a score for each entry of the index.
    Search {
        scores: Vec<u32>,
        top_k: usize,
        offset: usize,
        min_score: u32,
        theme: Option<String>,
        /// If present, only entries of that session and global ones.
        session_id: Option<String>,
    },
    /// List all themes with entry counts and the time of the latest entry.
    List {
        /// If present, only entries of that session and global ones count.
        session_id: Option<String>,
    },
    /// Delete all entries of a theme.
    Delete { theme: String },
    /// Run the retention policy.
    Prune { cutoff: u64, max_per_theme: usize },
    /// Replace the active entry of a theme and archive the old one as a memento.
    /// Empty content: forget.
    ReplaceActive {
        theme: String,
        content: String,
        vector: Vec<u32>,
        metadata: Option<Value>,
        session_id: Option<String>,
    },
    /// Return the last mementos of a theme, newest first.
    PeekMemento { theme: String, limit: usize, session_id: Option<String> },
    /// Rebuild the vector index from the entries.
    Reindex,
    /// Report the state of the store.
    Status,
    /// Create a chat session.
    CreateSession { title: String },
    /// List sessions, the one updated last first.
    ListSessions { limit: usize, offset: usize },
    /// Get all there is to know of a session.
    GetSession { session_id: String },
    /// Change the title of a session, its rolling summary, or both.
    UpdateSession {
        session_id: String,
        title: Option<String>,
        rolling_summary: Option<String>,
    },
    /// Delete a session and its entries.
    DeleteSession { session_id: String },
}

/// The answer to a command.
pub enum Reply {
    Stored(Stored),
    Recalled(Recalled),
    Found(Found),
    Themes(ThemeList),
    Deleted(Deleted),
    Pruned(Pruned),
    Replaced(Replaced),
    Peeked(Peeked),
    Reindexed(Reindexed),
    Status(Status),
    Created(Created),
    Sessions(SessionList),
    Session(Session),
    Updated,
    SessionDeleted(SessionDeleted),
    /// The command failed, for this reason.
    Failed(String),
}

/// Identifiers and times for a command: `entry_id` for a new entry and
/// `session_id` for a new session, and the present time, as the bit pattern of a
/// double at two instants, and as a session shows it.
pub struct Draw {
    pub entry_id: String,
    pub session_id: String,
    pub archived_at: u64,
    pub stored_at: u64,
    pub now: String,
}

/// What a command comes to: an answer at once, or a plan to write first, and the
/// answer if that succeeds.
pub enum Step {
    Answer(Reply),
    Write(Plan, Reply),
}

/// Whether the values are such as can be drawn.
pub open spec fn drawn(draw: Draw) -> bool {
    &&& is_uuid(draw.entry_id@)
    &&& is_session_id(draw.session_id@)
    &&& is_time(draw.archived_at)
    &&& is_time(draw.stored_at)
    &&& exists|secs: u64| draw.now@ == #[trigger] iso8601_text(secs as nat)
}

/// Whether the scores of a search fit the index.
pub open spec fn scored(store: StoreModel, cmd: Command) -> bool {
    match cmd {
        Command::Search { scores, .. } => scores@.len() == store.index.len(),
        _ => true,
    }
}

/// Whether the plan of a command is in the parts in which it is written: pruning
/// and the deletion of a session go part by part, all else as a whole.
pub open spec fn written_in_parts(store: StoreModel, cmd: Command, plan: PlanModel) -> bool {
    match cmd {
        Command::Prune { cutoff, max_per_theme } => {
            &&& plan.keep == staying(store.entries, cutoff, max_per_theme as nat)
            &&& plan.parts == Some(prune_parts(store.entries, cutoff))
        },
        Command::DeleteSession { session_id } => {
            &&& plan.keep == Seq::new(
                store.entries.len(),
                |i: int| outside_session(session_id@)(store.entries[i]),
            )
            &&& plan.parts == Some(one_part(store.entries.len()))
        },
        _ => plan.parts is None,
    }
}

/// Whether `reply` answers the command and `after` is the store that it leaves,
/// where `before` is the store that it found.
pub open spec fn answered(
    before: StoreModel,
    after: StoreModel,
    cmd: Command,
    draw: Draw,
    reply: Reply,
) -> bool {
    match cmd {
        Command::Store { theme, content, vector, metadata, session_id } => {
            let error = store_error(before, vector@.len(), draw.entry_id@);
            match reply {
                Reply::Stored(r) => {
                    &&& error is None
                    &&& r.theme@ == theme@
                    &&& after == stored_store(
                        before,
                        new_entry(
                            draw.entry_id@,
                            theme@,
                            content@,
                            vector@,
                            draw.stored_at,
                            metadata,
                            text_of(session_id),
                        ),
                        draw.now@,
                    )
                },
                Reply::Failed(reason) => error == Some(reason@) && after == before,
                _ => false,
            }
        },
        Command::Recall { theme, limit, session_id } => match reply {
            Reply::Recalled(r) => {
                &&& r.theme@ == theme@
                &&& views(r.entries@) == recalled_entries(
                    latest_entries(before.entries, theme@, text_of(session_id), limit as nat),
                )
                &&& r.found == (r.entries@.len() > 0)
                &&& after == before
            },
            _ => false,
        },
        Command::Search { scores, top_k, offset, min_score, theme, session_id } => {
            let answer = search_answer(
                before,
                scores@,
                top_k as nat,
                offset as nat,
                min_score,
                text_of(theme),
                text_of(session_id),
            );
            &&& after == before
            &&& match reply {
                Reply::Found(r) => answer == Ok::<Seq<FoundModel>, Seq<char>>(views(r.results@))
                    && r.available,
                Reply::Failed(reason) => answer == Err::<Seq<FoundModel>, Seq<char>>(reason@),
                _ => false,
            }
        },
        Command::List { session_id } => match reply {
            Reply::Themes(r) => {
                &&& views(r.themes@) == theme_summaries(
                    before.entries.filter(listed(text_of(session_id))),
                )
                &&& after == before
            },
            _ => false,
        },
        Command::Delete { theme } => match reply {
            Reply::Deleted(r) => {
                &&& r.deleted == has_theme(before.entries, theme@)
                &&& r.theme@ == theme@
                &&& after == deleted_store(before, theme@)
            },
            _ => false,
        },
        Command::Prune { cutoff, max_per_theme } => match reply {
            Reply::Pruned(r) => {
                &&& r.pruned == before.entries.len() - after.entries.len()
                &&& after == pruned_store(before, cutoff, max_per_theme as nat)
            },
            _ => false,
        },
        Command::ReplaceActive { theme, content, vector, metadata, session_id } => {
            let error = replace_error(
                before,
                theme@,
                text_of(session_id),
                replacement_id(draw.entry_id@, content@),
            );
            match reply {
                Reply::Replaced(r) => {
                    &&& error is None
                    &&& r.archived == (before.entries.filter(
                        active(theme@, text_of(session_id)),
                    ).len() > 0)
                    &&& r.forgotten == (content@.len() == 0)
                    &&& r.theme@ == theme@
                    &&& after == replaced_store(
                        before,
                        theme@,
                        text_of(session_id),
                        draw.archived_at,
                        replacement(
                            draw.entry_id@,
                            theme@,
                            content@,
                            vector@,
                            draw.stored_at,
                            metadata,
                            text_of(session_id),
                        ),
                    )
                },
                Reply::Failed(reason) => error == Some(reason@) && after == before,
                _ => false,
            }
        },
        Command::PeekMemento { theme, limit, session_id } => match reply {
            Reply::Peeked(r) => {
                &&& r.theme@ == theme@
                &&& views(r.mementos@) == peeked_mementos(
                    latest_mementos(before.mementos, theme@, text_of(session_id), limit as nat),
                )
                &&& after == before
            },
            _ => false,
        },
        Command::Reindex => match reply {
            Reply::Reindexed(r) => {
                &&& r.indexed == after.index.len()
                &&& after == (StoreModel { index: loaded_index(before.entries), ..before })
            },
            _ => false,
        },
        Command::Status => match reply {
            Reply::Status(r) => {
                &&& r.total_entries == before.entries.len()
                &&& r.themes == distinct_themes(before.entries).len()
                &&& r.vector_dimensions == dimension_of(before.index)
                &&& is_histogram(r.dimension_histogram@, before.index)
                &&& r.storage_path@ == before.storage_path
                &&& after == before
            },
            _ => false,
        },
        Command::CreateSession { title } => {
            let error = session_id_error(before.sessions, draw.session_id@);
            match reply {
                Reply::Created(r) => {
                    &&& error is None
                    &&& r.session_id@ == draw.session_id@
                    &&& r.created_at@ == draw.now@
                    &&& after == with_session(
                        before,
                        new_session(draw.session_id@, title@, draw.now@),
                    )
                },
                Reply::Failed(reason) => error == Some(reason@) && after == before,
                _ => false,
            }
        },
        Command::ListSessions { limit, offset } => match reply {
            Reply::Sessions(r) => {
                &&& views(r.sessions@) == session_summaries(
                    session_page(before.sessions, limit as nat, offset as nat),
                )
                &&& after == before
            },
            _ => false,
        },
        Command::GetSession { session_id } => {
            &&& after == before
            &&& match reply {
                Reply::Session(s) => session_with_id(before.sessions, session_id@) == Some(s@),
                Reply::Failed(reason) => session_with_id(before.sessions, session_id@) is None
                    && reason@ == not_found(session_id@),
                _ => false,
            }
        },
        Command::UpdateSession { session_id, title, rolling_summary } => {
            &&& reply is Updated
            &&& after == updated_store(
                before,
                session_update(
                    session_id@,
                    text_of(title),
                    text_of(rolling_summary),
                    draw.now@,
                ),
            )
        },
        Command::DeleteSession { session_id } => match reply {
            Reply::SessionDeleted(r) => {
                &&& r.deleted_entries == before.entries.len() - after.entries.len()
                &&& after == without_session(before, session_id@)
            },
            _ => false,
        },
    }
}

/// How many entries `recall` returns when no limit is given.
pub fn default_limit() -> (limit: usize)
    ensures
        limit == 20,
{
    20
}

/// How many hits `search` returns when no number is given.
pub fn default_top_k() -> (top_k: usize)
    ensures
        top_k == 5,
{
    5
}

/// How many days `prune` keeps global entries when no number is given.
pub fn default_retention_days() -> (days: u64)
    ensures
        days == 90,
{
    90
}

/// How many entries of a bucket `prune` keeps when no number is given.
pub fn default_max_per_theme() -> (max: usize)
    ensures
        max == 500,
{
    500
}

/// How many sessions `list_sessions` returns when no limit is given.
pub fn default_sessions_limit() -> (limit: usize)
    ensures
        limit == 50,
{
    50
}

/// How many mementos `peek_memento` returns when no limit is given.
pub fn default_memento_limit() -> (limit: usize)
    ensures
        limit == 5,
{
    5
}

/// Draws identifiers at random and reads the clock.
pub fn draw() -> (r: Draw)
    ensures
        drawn(r),
{
    Draw {
        entry_id: generate_entry_id(),
        session_id: generate_session_id(),
        archived_at: now_f64(),
        stored_at: now_f64(),
        now: now_iso8601(),
    }
}

impl Store {
    /// Plans a command with what was drawn for it.
    pub fn plan(&self, cmd: Command, draw: Draw) -> (step: Step)
        requires
            scored(self@, cmd),
        ensures
            match step {
                Step::Answer(reply) => answered(self@, self@, cmd, draw, reply),
                Step::Write(plan, reply) => answered(
                    self@,
                    applied(self@, plan@),
                    cmd,
                    draw,
                    reply,
                ),
            },
            step matches Step::Write(plan, _) ==> (cmd matches Command::Store {
                session_id,
                ..
            } ==> plan@.session == message_counted(text_of(session_id), draw.now@)),
            step matches Step::Write(plan, _) ==> written_in_parts(self@, cmd, plan@),
    {
        match cmd {
            Command::Store { theme, content, vector, metadata, session_id } => {
                match self.plan_store(
                    theme.as_str(),
                    content.as_str(),
                    &vector,
                    &metadata,
                    as_text(&session_id),
                    draw.entry_id,
                    draw.stored_at,
                    draw.now,
                ) {
                    Ok((plan, reply)) => Step::Write(plan, Reply::Stored(reply)),
                    Err(error) => Step::Answer(Reply::Failed(error)),
                }
            },
            Command::Recall { theme, limit, session_id } => {
                let reply = self.cmd_recall(theme.as_str(), limit, as_text(&session_id));
                Step::Answer(Reply::Recalled(reply))
            },
            Command::Search { scores, top_k, offset, min_score, theme, session_id } => {
                match self.cmd_search(
                    &scores,
                    top_k,
                    offset,
                    min_score,
                    as_text(&theme),
                    as_text(&session_id),
                ) {
                    Ok(reply) => Step::Answer(Reply::Found(reply)),
                    Err(error) => Step::Answer(Reply::Failed(error)),
                }
            },
            Command::List { session_id } => {
                Step::Answer(Reply::Themes(self.cmd_list(as_text(&session_id))))
            },
            Command::Delete { theme } => {
                let (plan, reply) = self.plan_delete(theme.as_str());
                Step::Write(plan, Reply::Deleted(reply))
            },
            Command::Prune { cutoff, max_per_theme } => {
                let (plan, reply) = self.plan_prune(cutoff, max_per_theme);
                Step::Write(plan, Reply::Pruned(reply))
            },
            Command::ReplaceActive { theme, content, vector, metadata, session_id } => {
                match self.plan_replace_active(
                    theme.as_str(),
                    content.as_str(),
                    &vector,
                    &metadata,
                    as_text(&session_id),
                    draw.archived_at,
                    draw.entry_id,
                    draw.stored_at,
                ) {
                    Ok((plan, reply)) => Step::Write(plan, Reply::Replaced(reply)),
                    Err(error) => Step::Answer(Reply::Failed(error)),
                }
            },
            Command::PeekMemento { theme, limit, session_id } => {
                let reply = self.cmd_peek_memento(theme.as_str(), limit, as_text(&session_id));
                Step::Answer(Reply::Peeked(reply))
            },
            Command::Reindex => {
                let (plan, reply) = self.plan_reindex();
                proof {
                    lemma_ranked_same_rows::<Entry>(self@.entries);
                }
                Step::Write(plan, Reply::Reindexed(reply))
            },
            Command::Status => Step::Answer(Reply::Status(self.cmd_status())),
            Command::CreateSession { title } => {
                match self.plan_create_session(title.as_str(), draw.session_id, draw.now) {
                    Ok((plan, reply)) => Step::Write(plan, Reply::Created(reply)),
                    Err(error) => Step::Answer(Reply::Failed(error)),
                }
            },
            Command::ListSessions { limit, offset } => {
                Step::Answer(Reply::Sessions(self.cmd_list_sessions(limit, offset)))
            },
            Command::GetSession { session_id } => match self.cmd_get_session(session_id.as_str()) {
                Ok(session) => Step::Answer(Reply::Session(session)),
                Err(error) => Step::Answer(Reply::Failed(error)),
            },
            Command::UpdateSession { session_id, title, rolling_summary } => {
                let plan = self.plan_update_session(
                    session_id.as_str(),
                    title,
                    rolling_summary,
                    draw.now,
                );
                Step::Write(plan, Reply::Updated)
            },
            Command::DeleteSession { session_id } => {
                let (plan, reply) = self.plan_delete_session(session_id.as_str());
                Step::Write(plan, Reply::SessionDeleted(reply))
            },
        }
    }

    /// Settles the plan of a command and gives its answer: `reply` if the plan was
    /// written, and the reason if not all of it was.
    pub fn finish(&mut self, plan: Plan, reply: Reply, outcome: Outcome) -> (r: Reply)
        requires
            possible(plan@, outcome),
        ensures
            final(self)@ == settled(old(self)@, plan@, outcome),
            match outcome {
                Outcome::Done => r == reply,
                Outcome::SessionNotWritten => r == reply,
                Outcome::Stopped(_, reason) => r == Reply::Failed(reason),
                Outcome::Failed(reason) => r == Reply::Failed(reason),
            },
    {
        match self.settle(plan, outcome) {
            Ok(_) => reply,
            Err(reason) => Reply::Failed(reason),
        }
    }
}

/// Carries a command out on the store in memory and answers it.
pub fn dispatch(store: &mut Store, cmd: Command) -> (reply: Reply)
    requires
        scored(old(store)@, cmd),
    ensures
        exists|draw: Draw|
            drawn(draw) && #[trigger] answered(old(store)@, final(store)@, cmd, draw, reply),
{
    let draw: Draw = draw();
    let ghost values = draw;
    match store.plan(cmd, draw) {
        Step::Answer(reply) => {
            assert(answered(old(store)@, store@, cmd, values, reply));
            reply
        },
        Step::Write(plan, reply) => {
            let reply = store.finish(plan, reply, Outcome::Done);
            assert(answered(old(store)@, store@, cmd, values, reply));
            reply
        },
    }
}

} // verus!
