//! The store: the rows of the database and the vector index, and how a change to
//! them takes effect.
//!
//! A command that changes something is carried out in two steps. First a plan is
//! made, from the rows as they are: it says which rows leave and which come, and
//! what happens to the index. The plan is then written to the database, and once
//! it is known how that went, it is settled: as much of it takes effect in the
//! store as was written.

use crate::codec::{decode_vector, decoded};
use crate::index::{not_active, of_other_sessions, of_other_themes, IndexModel, VectorIndex};
use crate::rows::{drop_rows, kept, lemma_filter_all, rank, ranked, retain_rows, select, views};
use crate::tables::{Entry, EntryModel, Memento, MementoModel, Session, SessionModel};
use crate::text::{as_text, same_text, text_of};
use vstd::prelude::*;

verus! {

/// The store.
pub struct Store {
    pub entries: Vec<Entry>,
    pub sessions: Vec<Session>,
    pub mementos: Vec<Memento>,
    pub index: VectorIndex,
    pub storage_path: String,
}

/// What a `Store` stands for. Rows stand in the order in which they were added.
pub struct StoreModel {
    pub entries: Seq<EntryModel>,
    pub sessions: Seq<SessionModel>,
    pub mementos: Seq<MementoModel>,
    pub index: Seq<IndexModel>,
    pub storage_path: Seq<char>,
}

impl View for Store {
    type V = StoreModel;

    open spec fn view(&self) -> StoreModel {
        StoreModel {
            entries: views(self.entries@),
            sessions: views(self.sessions@),
            mementos: views(self.mementos@),
            index: self.index@,
            storage_path: self.storage_path@,
        }
    }
}

/// What the index keeps of an entry.
pub open spec fn index_of(e: EntryModel) -> IndexModel {
    IndexModel {
        id: e.id,
        theme: e.theme,
        vector: decoded(e.vector),
        session_id: e.session_id,
    }
}

/// The index of the entries, in the order in which they were stored.
pub open spec fn loaded_index(entries: Seq<EntryModel>) -> Seq<IndexModel> {
    let order = ranked::<Entry>(entries);
    Seq::new(order.len(), |i: int| index_of(order[i]))
}

/// Columns of a session to change.
pub struct SessionEdit {
    pub id: String,
    pub title: Option<String>,
    pub rolling_summary: Option<String>,
    pub count_message: bool,
    pub updated_at: String,
}

/// What a `SessionEdit` stands for.
pub struct SessionEditModel {
    pub id: Seq<char>,
    pub title: Option<Seq<char>>,
    pub rolling_summary: Option<Seq<char>>,
    pub count_message: bool,
    pub updated_at: Seq<char>,
}

impl View for SessionEdit {
    type V = SessionEditModel;

    open spec fn view(&self) -> SessionEditModel {
        SessionEditModel {
            id: self.id@,
            title: text_of(self.title),
            rolling_summary: text_of(self.rolling_summary),
            count_message: self.count_message,
            updated_at: self.updated_at@,
        }
    }
}

/// What happens to the sessions.
pub enum SessionChange {
    Keep,
    Insert(Session),
    Edit(SessionEdit),
    Remove(String),
}

/// What a `SessionChange` stands for.
pub enum SessionChangeModel {
    Keep,
    Insert(SessionModel),
    Edit(SessionEditModel),
    Remove(Seq<char>),
}

impl View for SessionChange {
    type V = SessionChangeModel;

    open spec fn view(&self) -> SessionChangeModel {
        match self {
            SessionChange::Keep => SessionChangeModel::Keep,
            SessionChange::Insert(s) => SessionChangeModel::Insert(s@),
            SessionChange::Edit(edit) => SessionChangeModel::Edit(edit@),
            SessionChange::Remove(id) => SessionChangeModel::Remove(id@),
        }
    }
}

/// What happens to the index. `Push` and `ReplaceActive` append the entry that is
/// added, if one is; `ReplaceActive` first removes the active entries of a theme.
pub enum IndexChange {
    Keep,
    Push,
    RemoveTheme(String),
    ReplaceActive(String, Option<String>),
    RemoveSession(String),
    Rebuild,
}

/// What an `IndexChange` stands for.
pub enum IndexChangeModel {
    Keep,
    Push,
    RemoveTheme(Seq<char>),
    ReplaceActive(Seq<char>, Option<Seq<char>>),
    RemoveSession(Seq<char>),
    Rebuild,
}

impl View for IndexChange {
    type V = IndexChangeModel;

    open spec fn view(&self) -> IndexChangeModel {
        match self {
            IndexChange::Keep => IndexChangeModel::Keep,
            IndexChange::Push => IndexChangeModel::Push,
            IndexChange::RemoveTheme(theme) => IndexChangeModel::RemoveTheme(theme@),
            IndexChange::ReplaceActive(theme, session) => IndexChangeModel::ReplaceActive(
                theme@,
                text_of(*session),
            ),
            IndexChange::RemoveSession(id) => IndexChangeModel::RemoveSession(id@),
            IndexChange::Rebuild => IndexChangeModel::Rebuild,
        }
    }
}

/// A change to the store. `keep` says of each entry, in order, whether it stays;
/// `archive` holds the mementos to add, and `add` the entry to add.
///
/// A plan is written as a whole, unless it has `parts`. Then the entries leave part
/// by part, in the order of the numbers of the parts, and `parts` gives the number
/// for each entry; the change to the sessions comes last. What was written before
/// something failed stays written.
pub struct Plan {
    pub keep: Vec<bool>,
    pub parts: Option<Vec<usize>>,
    pub archive: Vec<Memento>,
    pub add: Option<Entry>,
    pub session: SessionChange,
    pub index: IndexChange,
}

/// What a `Plan` stands for.
pub struct PlanModel {
    pub keep: Seq<bool>,
    pub parts: Option<Seq<usize>>,
    pub archive: Seq<MementoModel>,
    pub add: Option<EntryModel>,
    pub session: SessionChangeModel,
    pub index: IndexChangeModel,
}

impl View for Plan {
    type V = PlanModel;

    open spec fn view(&self) -> PlanModel {
        PlanModel {
            keep: self.keep@,
            parts: match self.parts {
                Some(parts) => Some(parts@),
                None => None,
            },
            archive: views(self.archive@),
            add: match self.add {
                Some(e) => Some(e@),
                None => None,
            },
            session: self.session@,
            index: self.index@,
        }
    }
}

/// How the attempt to write a plan to the database went.
pub enum Outcome {
    /// All of it is written.
    Done,
    /// All of it is written but for the message that a session was to count.
    SessionNotWritten,
    /// Of a plan in parts, the removals of the parts with numbers below this one are
    /// written, and nothing else, for this reason.
    Stopped(usize, String),
    /// Nothing is written, for this reason.
    Failed(String),
}

/// Whether a plan is written part by part.
pub open spec fn in_parts(plan: PlanModel) -> bool {
    plan.parts matches Some(parts) && parts.len() == plan.keep.len()
}

/// For each entry, whether it stays once the removals of the parts with numbers
/// below `done` are written.
pub open spec fn left_after(plan: PlanModel, done: usize) -> Seq<bool> {
    Seq::new(
        plan.keep.len(),
        |i: int| plan.keep[i] || (plan.parts->0)[i] >= done,
    )
}

/// Whether a change counts a message for a session: the one change that may stay
/// unwritten while the rest of its plan is written.
pub open spec fn counts_message(change: SessionChangeModel) -> bool {
    match change {
        SessionChangeModel::Edit(edit) => edit.count_message,
        _ => false,
    }
}

/// A session after an edit.
pub open spec fn edited(s: SessionModel, edit: SessionEditModel) -> SessionModel {
    if s.id == edit.id {
        SessionModel {
            title: if edit.title is Some {
                edit.title->0
            } else {
                s.title
            },
            rolling_summary: if edit.rolling_summary is Some {
                edit.rolling_summary->0
            } else {
                s.rolling_summary
            },
            message_count: if edit.count_message && s.message_count < i64::MAX {
                (s.message_count + 1) as i64
            } else {
                s.message_count
            },
            updated_at: edit.updated_at,
            ..s
        }
    } else {
        s
    }
}

/// The sessions other than the session `id`.
pub open spec fn other_than(id: Seq<char>) -> spec_fn(SessionModel) -> bool {
    |s: SessionModel| s.id != id
}

/// The sessions after a change.
pub open spec fn sessions_after(
    sessions: Seq<SessionModel>,
    change: SessionChangeModel,
) -> Seq<SessionModel> {
    match change {
        SessionChangeModel::Keep => sessions,
        SessionChangeModel::Insert(s) => sessions.push(s),
        SessionChangeModel::Edit(edit) => Seq::new(
            sessions.len(),
            |i: int| edited(sessions[i], edit),
        ),
        SessionChangeModel::Remove(id) => sessions.filter(other_than(id)),
    }
}

/// The entries after a plan has taken effect.
pub open spec fn entries_after(entries: Seq<EntryModel>, plan: PlanModel) -> Seq<EntryModel> {
    let left = kept(entries, plan.keep);
    match plan.add {
        Some(e) => left.push(e),
        None => left,
    }
}

/// `index` with what the index keeps of the entry, if there is one, at the end.
pub open spec fn index_with(index: Seq<IndexModel>, add: Option<EntryModel>) -> Seq<IndexModel> {
    match add {
        Some(e) => index.push(index_of(e)),
        None => index,
    }
}

/// The index after a change, where `entries` are the entries after it.
pub open spec fn index_after(
    index: Seq<IndexModel>,
    change: IndexChangeModel,
    add: Option<EntryModel>,
    entries: Seq<EntryModel>,
) -> Seq<IndexModel> {
    match change {
        IndexChangeModel::Keep => index,
        IndexChangeModel::Push => index_with(index, add),
        IndexChangeModel::RemoveTheme(theme) => index.filter(of_other_themes(theme)),
        IndexChangeModel::ReplaceActive(theme, session) => index_with(
            index.filter(not_active(theme, session)),
            add,
        ),
        IndexChangeModel::RemoveSession(id) => index.filter(of_other_sessions(id)),
        IndexChangeModel::Rebuild => loaded_index(entries),
    }
}

/// The store after a plan has taken effect.
pub open spec fn applied(store: StoreModel, plan: PlanModel) -> StoreModel {
    let entries = entries_after(store.entries, plan);
    StoreModel {
        entries,
        sessions: sessions_after(store.sessions, plan.session),
        mementos: store.mementos + plan.archive,
        index: index_after(store.index, plan.index, plan.add, entries),
        storage_path: store.storage_path,
    }
}

/// Whether a plan can have gone that way: only a counted message can be left out,
/// and only a plan in parts can stop between them.
pub open spec fn possible(plan: PlanModel, outcome: Outcome) -> bool {
    match outcome {
        Outcome::SessionNotWritten => counts_message(plan.session),
        Outcome::Stopped(_, _) => in_parts(plan),
        _ => true,
    }
}

/// The store once it is known how the attempt to write a plan went. Where it
/// stopped between parts, the entries written off are gone, and the sessions and
/// the index are as they were.
pub open spec fn settled(store: StoreModel, plan: PlanModel, outcome: Outcome) -> StoreModel {
    match outcome {
        Outcome::Done => applied(store, plan),
        Outcome::SessionNotWritten => applied(
            store,
            PlanModel { session: SessionChangeModel::Keep, ..plan },
        ),
        Outcome::Stopped(done, _) => StoreModel {
            entries: kept(store.entries, left_after(plan, done)),
            ..store
        },
        Outcome::Failed(_) => store,
    }
}

/// Accepts all entries.
pub open spec fn any_entry() -> spec_fn(EntryModel) -> bool {
    |e: EntryModel| true
}

/// Builds the index of the entries, in the order in which they were stored.
pub fn load_index(entries: &Vec<Entry>) -> (index: VectorIndex)
    ensures
        index@ == loaded_index(views(entries@)),
{
    let all = |e: &Entry| -> (r: bool)
        ensures
            r,
        { true };
    let rows: Vec<&Entry> = select(entries, all, Ghost(any_entry()));
    proof {
        lemma_filter_all(views(entries@), any_entry());
    }
    let order: Vec<&Entry> = rank(&rows);
    let mut index = VectorIndex::new();
    let mut i: usize = 0;
    while i < order.len()
        invariant
            i == index@.len() <= order@.len(),
            forall|k: int| 0 <= k < i ==> #[trigger] index@[k] == index_of(order@[k]@),
        decreases order.len() - i,
    {
        let row: &Entry = order[i];
        let session_id: Option<String> = copy_optional(&row.session_id);
        index.push(row.id.clone(), row.theme.clone(), decode_vector(&row.vector), session_id);
        i = i + 1;
    }
    assert(index@ =~= loaded_index(views(entries@)));
    index
}

/// A copy of an optional string.
pub(crate) fn copy_optional(s: &Option<String>) -> (r: Option<String>)
    ensures
        text_of(r) == text_of(*s),
{
    match s {
        Some(t) => Some(t.clone()),
        None => None,
    }
}

/// Applies an edit to a session.
fn edit_session(s: Session, edit: &SessionEdit) -> (r: Session)
    ensures
        r@ == edited(s@, edit@),
{
    if !same_text(s.id.as_str(), edit.id.as_str()) {
        return s;
    }
    let mut s: Session = s;
    if let Some(title) = &edit.title {
        s.title = title.clone();
    }
    if let Some(summary) = &edit.rolling_summary {
        s.rolling_summary = summary.clone();
    }
    if edit.count_message && s.message_count < i64::MAX {
        s.message_count = s.message_count + 1;
    }
    s.updated_at = edit.updated_at.clone();
    s
}

/// Applies an edit to the sessions.
fn edit_sessions(sessions: Vec<Session>, edit: &SessionEdit) -> (out: Vec<Session>)
    ensures
        views(out@) == sessions_after(views(sessions@), SessionChangeModel::Edit(edit@)),
{
    let ghost all = sessions@;
    let mut out: Vec<Session> = Vec::new();
    for s in it: sessions
        invariant
            it.seq() == all,
            out@.len() == it.index(),
            forall|k: int| 0 <= k < out@.len() ==> (#[trigger] out@[k])@ == edited(
                all[k]@,
                edit@,
            ),
    {
        out.push(edit_session(s, edit));
    }
    assert(views(out@) =~= sessions_after(views(all), SessionChangeModel::Edit(edit@)));
    out
}

impl Store {
    /// A store with the given rows, in the order in which they were added. The
    /// index is built from them.
    pub fn open(
        entries: Vec<Entry>,
        sessions: Vec<Session>,
        mementos: Vec<Memento>,
        storage_path: String,
    ) -> (store: Self)
        ensures
            store@ == (StoreModel {
                entries: views(entries@),
                sessions: views(sessions@),
                mementos: views(mementos@),
                index: loaded_index(views(entries@)),
                storage_path: storage_path@,
            }),
    {
        let index: VectorIndex = load_index(&entries);
        Store { entries, sessions, mementos, index, storage_path }
    }

    /// Takes the rows as they now are in the database. The index stays as it is.
    pub fn refresh(
        &mut self,
        entries: Vec<Entry>,
        sessions: Vec<Session>,
        mementos: Vec<Memento>,
    )
        ensures
            final(self)@ == (StoreModel {
                entries: views(entries@),
                sessions: views(sessions@),
                mementos: views(mementos@),
                ..old(self)@
            }),
    {
        self.entries = entries;
        self.sessions = sessions;
        self.mementos = mementos;
    }

    /// Applies a change to the sessions.
    fn change_sessions(&mut self, change: SessionChange)
        ensures
            final(self)@ == (StoreModel {
                sessions: sessions_after(old(self)@.sessions, change@),
                ..old(self)@
            }),
    {
        match change {
            SessionChange::Keep => {},
            SessionChange::Insert(s) => {
                let ghost before = self.sessions@;
                self.sessions.push(s);
                assert(views(self.sessions@) =~= views(before).push(s@));
            },
            SessionChange::Edit(edit) => {
                let mut taken: Vec<Session> = Vec::new();
                std::mem::swap(&mut taken, &mut self.sessions);
                self.sessions = edit_sessions(taken, &edit);
            },
            SessionChange::Remove(id) => {
                let keep = |s: &Session| -> (r: bool)
                    ensures
                        r == (s@.id != id@),
                    { !same_text(s.id.as_str(), id.as_str()) };
                retain_rows(&mut self.sessions, keep, Ghost(other_than(id@)));
            },
        }
    }

    /// Applies a change to the index; `add` is the entry that is added, and the
    /// entries of the store are those after the change.
    fn change_index(&mut self, change: IndexChange, add: &Option<Entry>)
        ensures
            final(self)@ == (StoreModel {
                index: index_after(
                    old(self)@.index,
                    change@,
                    match add {
                        Some(e) => Some(e@),
                        None => None,
                    },
                    old(self)@.entries,
                ),
                ..old(self)@
            }),
    {
        match change {
            IndexChange::Keep => {},
            IndexChange::Push => {
                self.push_to_index(add);
            },
            IndexChange::RemoveTheme(theme) => {
                self.index.remove_theme(theme.as_str());
            },
            IndexChange::ReplaceActive(theme, session) => {
                self.index.remove_active(theme.as_str(), as_text(&session));
                self.push_to_index(add);
            },
            IndexChange::RemoveSession(id) => {
                self.index.remove_session(id.as_str());
            },
            IndexChange::Rebuild => {
                self.index = load_index(&self.entries);
            },
        }
    }

    /// Appends to the index what it keeps of the entry, if there is one.
    fn push_to_index(&mut self, add: &Option<Entry>)
        ensures
            final(self)@ == (StoreModel {
                index: index_with(
                    old(self)@.index,
                    match add {
                        Some(e) => Some(e@),
                        None => None,
                    },
                ),
                ..old(self)@
            }),
    {
        match add {
            Some(e) => {
                let session_id: Option<String> = copy_optional(&e.session_id);
                self.index.push(
                    e.id.clone(),
                    e.theme.clone(),
                    decode_vector(&e.vector),
                    session_id,
                );
            },
            None => {},
        }
    }

    /// Settles a plan: lets as much of it take effect as was written, and gives the
    /// reason if that was not all.
    pub fn settle(&mut self, plan: Plan, outcome: Outcome) -> (r: Result<(), String>)
        requires
            possible(plan@, outcome),
        ensures
            final(self)@ == settled(old(self)@, plan@, outcome),
            match outcome {
                Outcome::Done => r is Ok,
                Outcome::SessionNotWritten => r is Ok,
                Outcome::Stopped(_, reason) => r == Err::<(), String>(reason),
                Outcome::Failed(reason) => r == Err::<(), String>(reason),
            },
    {
        let Plan { keep, parts, archive, add, session, index } = plan;
        let session: SessionChange = match outcome {
            Outcome::Done => session,
            Outcome::SessionNotWritten => SessionChange::Keep,
            Outcome::Stopped(done, reason) => {
                if let Some(parts) = parts {
                    let left: Vec<bool> = flags_left(&keep, &parts, done);
                    assert(left@ =~= left_after(plan@, done));
                    let mut taken: Vec<Entry> = Vec::new();
                    std::mem::swap(&mut taken, &mut self.entries);
                    self.entries = drop_rows(taken, &left);
                }
                return Err(reason);
            },
            Outcome::Failed(reason) => {
                return Err(reason);
            },
        };
        let mut taken: Vec<Entry> = Vec::new();
        std::mem::swap(&mut taken, &mut self.entries);
        let mut entries: Vec<Entry> = drop_rows(taken, &keep);
        let mut archive: Vec<Memento> = archive;
        let ghost old_mementos = self.mementos@;
        let ghost new_mementos = archive@;
        self.mementos.append(&mut archive);
        assert(views(self.mementos@) =~= views(old_mementos) + views(new_mementos));
        match add {
            Some(e) => {
                let ghost left = entries@;
                let indexed = Some(copy_entry(&e));
                entries.push(e);
                assert(views(entries@) =~= views(left).push(e@));
                self.entries = entries;
                self.change_index(index, &indexed);
            },
            None => {
                self.entries = entries;
                self.change_index(index, &None);
            },
        }
        self.change_sessions(session);
        Ok(())
    }
}

/// For each entry, whether it stays once the removals of the parts with numbers
/// below `done` are written.
fn flags_left(keep: &Vec<bool>, parts: &Vec<usize>, done: usize) -> (flags: Vec<bool>)
    requires
        parts@.len() == keep@.len(),
    ensures
        flags@ == Seq::new(keep@.len(), |i: int| keep@[i] || parts@[i] >= done),
{
    let mut flags: Vec<bool> = Vec::new();
    let mut i: usize = 0;
    while i < keep.len()
        invariant
            i == flags@.len() <= keep@.len() == parts@.len(),
            forall|k: int| 0 <= k < i ==> #[trigger] flags@[k] == (keep@[k] || parts@[k] >= done),
        decreases keep.len() - i,
    {
        flags.push(keep[i] || parts[i] >= done);
        i = i + 1;
    }
    assert(flags@ =~= Seq::new(keep@.len(), |i: int| keep@[i] || parts@[i] >= done));
    flags
}

/// A copy of an entry.
pub(crate) fn copy_entry(e: &Entry) -> (r: Entry)
    ensures
        r@ == e@,
{
    Entry {
        id: e.id.clone(),
        theme: e.theme.clone(),
        content: e.content.clone(),
        vector: copy_bytes(&e.vector),
        stored_at: e.stored_at,
        metadata: copy_optional(&e.metadata),
        session_id: copy_optional(&e.session_id),
    }
}

/// A copy of a byte string.
pub(crate) fn copy_bytes(bytes: &Vec<u8>) -> (r: Vec<u8>)
    ensures
        r@ == bytes@,
{
    let r: Vec<u8> = bytes.clone();
    assert(r@ =~= bytes@);
    r
}

} // verus!
