//! Replacing the active entry of a theme, and looking at what was replaced.

use crate::calendar::{date_time_text, format_unix_secs, now_f64};
use crate::codec::{decoded, encode_vector, law_decode_inverts_encode};
use crate::ids::{generate_entry_id, is_uuid};
use crate::index::not_active;
use crate::json::{metadata_from_text, metadata_to_text, read_metadata, stored_metadata};
use crate::numbers::{double_to_whole, double_whole, is_time};
use crate::rows::{flag_rows, last_rows, rank, ranked, select, views};
use crate::search::position_of;
use crate::store::{
    applied, copy_bytes, copy_optional, index_with, IndexChange, Outcome, Plan, SessionChange,
    Store, StoreModel,
};
use crate::tables::{Entry, EntryModel, Memento, MementoModel};
use crate::text::{same_optional, same_text, str_of, text_of};
use crate::writing::{entry_id_error, new_entry, own_optional};
use serde_json::Value;
use vstd::prelude::*;

verus! {

/// The answer to `replace_active`.
pub struct Replaced {
    pub archived: bool,
    pub forgotten: bool,
    pub theme: String,
}

/// What `peek_memento` tells of a memento. Metadata is absent if none was stored
/// or if its text is no JSON.
pub struct PeekedMemento {
    pub content: String,
    pub stored_at: String,
    pub archived_at: String,
    pub metadata: Option<Value>,
}

/// What a `PeekedMemento` stands for.
pub struct PeekedModel {
    pub content: Seq<char>,
    pub stored_at: Seq<char>,
    pub archived_at: Seq<char>,
    pub metadata: Option<Value>,
}

impl View for PeekedMemento {
    type V = PeekedModel;

    open spec fn view(&self) -> PeekedModel {
        PeekedModel {
            content: self.content@,
            stored_at: self.stored_at@,
            archived_at: self.archived_at@,
            metadata: self.metadata,
        }
    }
}

/// The answer to `peek_memento`.
pub struct Peeked {
    pub theme: String,
    pub mementos: Vec<PeekedMemento>,
}

/// The active entries of a theme: those of the session, or the global ones.
pub open spec fn active(
    theme: Seq<char>,
    session: Option<Seq<char>>,
) -> spec_fn(EntryModel) -> bool {
    |e: EntryModel| e.theme == theme && e.session_id == session
}

/// The other entries.
pub open spec fn inactive(
    theme: Seq<char>,
    session: Option<Seq<char>>,
) -> spec_fn(EntryModel) -> bool {
    |e: EntryModel| !(e.theme == theme && e.session_id == session)
}

/// The memento of an entry.
pub open spec fn memento_of(e: EntryModel, archived_at: u64) -> MementoModel {
    MementoModel {
        id: e.id,
        theme: e.theme,
        content: e.content,
        vector: e.vector,
        stored_at: e.stored_at,
        archived_at,
        metadata: e.metadata,
        session_id: e.session_id,
    }
}

/// The mementos of entries.
pub open spec fn mementos_of(entries: Seq<EntryModel>, archived_at: u64) -> Seq<MementoModel> {
    Seq::new(entries.len(), |i: int| memento_of(entries[i], archived_at))
}

/// Whether a memento has the identifier `id`.
pub open spec fn memento_exists(mementos: Seq<MementoModel>, id: Seq<char>) -> bool {
    exists|i: int| 0 <= i < mementos.len() && (#[trigger] mementos[i]).id == id
}

/// Whether mementos can be added: no two mementos have the same identifier.
pub open spec fn can_archive(mementos: Seq<MementoModel>, more: Seq<MementoModel>) -> bool {
    &&& forall|i: int|
        0 <= i < more.len() ==> !memento_exists(mementos, (#[trigger] more[i]).id)
    &&& forall|i: int, j: int|
        0 <= i < j < more.len() ==> (#[trigger] more[i]).id != (#[trigger] more[j]).id
}

/// Why the active entries cannot be replaced, if they cannot. `id` is the
/// identifier of the entry to add, if there is one.
pub open spec fn replace_error(
    store: StoreModel,
    theme: Seq<char>,
    session: Option<Seq<char>>,
    id: Option<Seq<char>>,
) -> Option<Seq<char>> {
    let archived = mementos_of(store.entries.filter(active(theme, session)), 0);
    if !can_archive(store.mementos, archived) {
        Some("UNIQUE constraint failed: mementos.id"@)
    } else if id is Some {
        entry_id_error(store.entries.filter(inactive(theme, session)), id->0)
    } else {
        None
    }
}

/// The store after the active entries of a theme have been archived and `add`,
/// if there is one, has been stored in their place. The same entries leave the
/// index; it keeps those of the theme that belong to other sessions.
pub open spec fn replaced_store(
    store: StoreModel,
    theme: Seq<char>,
    session: Option<Seq<char>>,
    archived_at: u64,
    add: Option<EntryModel>,
) -> StoreModel {
    let left = store.entries.filter(inactive(theme, session));
    StoreModel {
        entries: match add {
            Some(e) => left.push(e),
            None => left,
        },
        mementos: store.mementos + mementos_of(
            store.entries.filter(active(theme, session)),
            archived_at,
        ),
        index: index_with(store.index.filter(not_active(theme, session)), add),
        ..store
    }
}

/// The entry that takes the place of the active ones: none if the content is empty.
pub open spec fn replacement(
    id: Seq<char>,
    theme: Seq<char>,
    content: Seq<char>,
    vector: Seq<u32>,
    stored_at: u64,
    metadata: Option<Value>,
    session: Option<Seq<char>>,
) -> Option<EntryModel> {
    if content.len() == 0 {
        None
    } else {
        Some(new_entry(id, theme, content, vector, stored_at, metadata, session))
    }
}

/// The identifier that a replacement needs: none if the content is empty.
pub open spec fn replacement_id(id: Seq<char>, content: Seq<char>) -> Option<Seq<char>> {
    if content.len() == 0 {
        None
    } else {
        Some(id)
    }
}

/// The mementos of a theme: those of the session, or the global ones.
pub open spec fn memento_matches(
    theme: Seq<char>,
    session: Option<Seq<char>>,
) -> spec_fn(MementoModel) -> bool {
    |m: MementoModel| m.theme == theme && m.session_id == session
}

/// The `limit` mementos archived last, the latest first; of mementos archived at
/// the same instant, the one added later counts as the later one.
pub open spec fn latest_mementos(
    mementos: Seq<MementoModel>,
    theme: Seq<char>,
    session: Option<Seq<char>>,
    limit: nat,
) -> Seq<MementoModel> {
    last_rows(ranked::<Memento>(mementos.filter(memento_matches(theme, session))), limit).reverse()
}

/// What `peek_memento` tells of a memento.
pub open spec fn peeked_memento(m: MementoModel) -> PeekedModel {
    PeekedModel {
        content: m.content,
        stored_at: date_time_text(double_whole(m.stored_at) as nat, ' '),
        archived_at: date_time_text(double_whole(m.archived_at) as nat, ' '),
        metadata: read_metadata(m.metadata),
    }
}

/// What `peek_memento` tells of mementos.
pub open spec fn peeked_mementos(mementos: Seq<MementoModel>) -> Seq<PeekedModel> {
    Seq::new(mementos.len(), |i: int| peeked_memento(mementos[i]))
}

/// Whether a memento has the identifier `id`.
fn has_memento(mementos: &Vec<Memento>, id: &str) -> (r: bool)
    ensures
        r == memento_exists(views(mementos@), id@),
{
    let mut i: usize = 0;
    while i < mementos.len()
        invariant
            i <= mementos@.len(),
            forall|k: int| 0 <= k < i ==> (#[trigger] views(mementos@)[k]).id != id@,
        decreases mementos.len() - i,
    {
        if same_text(mementos[i].id.as_str(), id) {
            assert(views(mementos@)[i as int].id == id@);
            return true;
        }
        i = i + 1;
    }
    false
}

/// The memento of an entry.
fn archive_entry(e: &Entry, archived_at: u64) -> (m: Memento)
    ensures
        m@ == memento_of(e@, archived_at),
        m.id@ == e.id@,
        m.theme@ == e.theme@,
        m.content@ == e.content@,
        m.vector@ == e.vector@,
        m.stored_at == e.stored_at,
        m.archived_at == archived_at,
        text_of(m.metadata) == text_of(e.metadata),
        text_of(m.session_id) == text_of(e.session_id),
{
    Memento {
        id: e.id.clone(),
        theme: e.theme.clone(),
        content: e.content.clone(),
        vector: copy_bytes(&e.vector),
        stored_at: e.stored_at,
        archived_at,
        metadata: copy_optional(&e.metadata),
        session_id: copy_optional(&e.session_id),
    }
}

/// The mementos of entries, or nothing if they cannot be added to `mementos`.
fn archive_entries(
    entries: &Vec<&Entry>,
    archived_at: u64,
    mementos: &Vec<Memento>,
) -> (r: Option<Vec<Memento>>)
    ensures
        match r {
            Some(archive) => can_archive(views(mementos@), views(archive@)) && views(archive@)
                == mementos_of(views(entries@), archived_at),
            None => !can_archive(views(mementos@), mementos_of(views(entries@), archived_at)),
        },
{
    let ghost all = mementos_of(views(entries@), archived_at);
    let mut archive: Vec<Memento> = Vec::new();
    let mut i: usize = 0;
    assert(views(archive@) =~= all.take(0));
    while i < entries.len()
        invariant
            i <= entries@.len(),
            all == mementos_of(views(entries@), archived_at),
            views(archive@) == all.take(i as int),
            can_archive(views(mementos@), views(archive@)),
        decreases entries.len() - i,
    {
        let e: &Entry = entries[i];
        if has_memento(mementos, e.id.as_str()) {
            assert(memento_exists(views(mementos@), all[i as int].id));
            return None;
        }
        if has_memento(&archive, e.id.as_str()) {
            proof {
                let k = choose|k: int|
                    0 <= k < views(archive@).len() && (#[trigger] views(archive@)[k]).id == e.id@;
                assert(all[k].id == all[i as int].id);
            }
            return None;
        }
        let ghost before = archive@;
        let m: Memento = archive_entry(e, archived_at);
        archive.push(m);
        proof {
            let next = views(archive@);
            assert(next =~= views(before).push(m@));
            assert(next =~= all.take(i + 1));
            assert forall|j: int| 0 <= j < next.len() implies !memento_exists(
                views(mementos@),
                (#[trigger] next[j]).id,
            ) by {
                if j < i {
                    assert(next[j] == views(before)[j]);
                }
            }
            assert forall|j: int, k: int| 0 <= j < k < next.len() implies (#[trigger] next[j]).id
                != (#[trigger] next[k]).id by {
                assert(next[j] == views(before)[j]);
                if k < i {
                    assert(next[k] == views(before)[k]);
                }
            }
        }
        i = i + 1;
    }
    assert(all.take(i as int) =~= all);
    Some(archive)
}

/// Whether mementos can be added depends on their identifiers alone.
pub(crate) proof fn lemma_can_archive_any_time(
    mementos: Seq<MementoModel>,
    entries: Seq<EntryModel>,
    a: u64,
    b: u64,
)
    ensures
        can_archive(mementos, mementos_of(entries, a)) == can_archive(
            mementos,
            mementos_of(entries, b),
        ),
{
    let x = mementos_of(entries, a);
    let y = mementos_of(entries, b);
    assert(forall|i: int| 0 <= i < x.len() ==> (#[trigger] x[i]).id == y[i].id);
    assert(forall|i: int| 0 <= i < y.len() ==> (#[trigger] y[i]).id == x[i].id);
}

impl Store {
    /// Plans to replace the active entries of a theme by a new one with the
    /// identifier `id`, stored at `stored_at`, or by none if the content is empty.
    /// The active entries become mementos, archived at `archived_at`.
    pub fn plan_replace_active(
        &self,
        theme: &str,
        content: &str,
        vector: &Vec<u32>,
        metadata: &Option<Value>,
        session_id: Option<&str>,
        archived_at: u64,
        id: String,
        stored_at: u64,
    ) -> (r: Result<(Plan, Replaced), String>)
        ensures
            match r {
                Ok((plan, reply)) => {
                    &&& replace_error(
                        self@,
                        theme@,
                        str_of(session_id),
                        replacement_id(id@, content@),
                    ) is None
                    &&& applied(self@, plan@) == replaced_store(
                        self@,
                        theme@,
                        str_of(session_id),
                        archived_at,
                        replacement(
                            id@,
                            theme@,
                            content@,
                            vector@,
                            stored_at,
                            *metadata,
                            str_of(session_id),
                        ),
                    )
                    &&& plan@.parts is None
                    &&& content@.len() == 0 <==> plan@.add is None
                    &&& plan@.add matches Some(e) ==> {
                        &&& e.id == id@
                        &&& e.theme == theme@
                        &&& e.content == content@
                        &&& decoded(e.vector) == vector@
                        &&& e.stored_at == stored_at
                        &&& e.metadata == stored_metadata(*metadata)
                        &&& e.session_id == str_of(session_id)
                        &&& applied(self@, plan@).index.last().vector == vector@
                    }
                    &&& reply.archived == (self@.entries.filter(
                        active(theme@, str_of(session_id)),
                    ).len() > 0)
                    &&& reply.forgotten == (content@.len() == 0)
                    &&& reply.theme@ == theme@
                },
                Err(error) => Some(error@) == replace_error(
                    self@,
                    theme@,
                    str_of(session_id),
                    replacement_id(id@, content@),
                ),
            },
    {
        let ghost session = str_of(session_id);
        let is_active = |e: &Entry| -> (r: bool)
            ensures
                r == active(theme@, str_of(session_id))(e@),
            { same_text(e.theme.as_str(), theme) && same_optional(&e.session_id, session_id) };
        let is_inactive = |e: &Entry| -> (r: bool)
            ensures
                r == inactive(theme@, str_of(session_id))(e@),
            { !(same_text(e.theme.as_str(), theme) && same_optional(&e.session_id, session_id)) };
        let leaving: Vec<&Entry> = select(
            &self.entries,
            is_active,
            Ghost(active(theme@, session)),
        );
        let staying: Vec<&Entry> = select(
            &self.entries,
            is_inactive,
            Ghost(inactive(theme@, session)),
        );
        let keep: Vec<bool> = flag_rows(
            &self.entries,
            is_inactive,
            Ghost(inactive(theme@, session)),
        );
        proof {
            lemma_can_archive_any_time(self@.mementos, views(leaving@), archived_at, 0);
        }
        let archive: Vec<Memento> = match archive_entries(&leaving, archived_at, &self.mementos) {
            Some(archive) => archive,
            None => {
                return Err("UNIQUE constraint failed: mementos.id".to_string());
            },
        };
        let forgotten: bool = content.is_empty();
        let add: Option<Entry> = if forgotten {
            None
        } else {
            let has_id = |e: &&Entry| -> (r: bool)
                ensures
                    r == (e@.id == id@),
                { same_text(e.id.as_str(), id.as_str()) };
            if position_of(&staying, has_id, Ghost(id@)).is_some() {
                return Err("UNIQUE constraint failed: entries.id".to_string());
            }
            Some(
                Entry {
                    id,
                    theme: theme.to_string(),
                    content: content.to_string(),
                    vector: encode_vector(vector),
                    stored_at,
                    metadata: metadata_to_text(metadata),
                    session_id: own_optional(session_id),
                },
            )
        };
        let reply = Replaced { archived: leaving.len() > 0, forgotten, theme: theme.to_string() };
        let plan = Plan {
            keep,
            parts: None,
            archive,
            add,
            session: SessionChange::Keep,
            index: IndexChange::ReplaceActive(theme.to_string(), own_optional(session_id)),
        };
        proof {
            law_decode_inverts_encode(vector@);
        }
        Ok((plan, reply))
    }

    /// Replaces the active entries of a theme by a new one, or by none if the
    /// content is empty. The active entries become mementos.
    pub fn cmd_replace_active(
        &mut self,
        theme: &str,
        content: &str,
        vector: Vec<u32>,
        metadata: Option<Value>,
        session_id: Option<&str>,
    ) -> (r: Result<Replaced, String>)
        ensures
            match r {
                Ok(reply) => {
                    &&& exists|archived_at: u64, id: Seq<char>, stored_at: u64|
                        {
                            &&& is_uuid(id)
                            &&& is_time(archived_at)
                            &&& is_time(stored_at)
                            &&& replace_error(
                                old(self)@,
                                theme@,
                                str_of(session_id),
                                replacement_id(id, content@),
                            ) is None
                            &&& final(self)@ == #[trigger] replaced_store(
                                old(self)@,
                                theme@,
                                str_of(session_id),
                                archived_at,
                                replacement(
                                    id,
                                    theme@,
                                    content@,
                                    vector@,
                                    stored_at,
                                    metadata,
                                    str_of(session_id),
                                ),
                            )
                        }
                    &&& reply.archived == (old(self)@.entries.filter(
                        active(theme@, str_of(session_id)),
                    ).len() > 0)
                    &&& reply.forgotten == (content@.len() == 0)
                    &&& reply.theme@ == theme@
                },
                Err(error) => {
                    &&& final(self)@ == old(self)@
                    &&& exists|id: Seq<char>|
                        is_uuid(id) && Some(error@) == replace_error(
                            old(self)@,
                            theme@,
                            str_of(session_id),
                            #[trigger] replacement_id(id, content@),
                        )
                },
            },
    {
        let archived_at: u64 = now_f64();
        let id: String = generate_entry_id();
        let stored_at: u64 = now_f64();
        let ghost id_text = id@;
        match self.plan_replace_active(
            theme,
            content,
            &vector,
            &metadata,
            session_id,
            archived_at,
            id,
            stored_at,
        ) {
            Ok((plan, reply)) => {
                let _ = self.settle(plan, Outcome::Done);
                assert(self@ == replaced_store(
                    old(self)@,
                    theme@,
                    str_of(session_id),
                    archived_at,
                    replacement(
                        id_text,
                        theme@,
                        content@,
                        vector@,
                        stored_at,
                        metadata,
                        str_of(session_id),
                    ),
                ));
                Ok(reply)
            },
            Err(error) => {
                assert(Some(error@) == replace_error(
                    self@,
                    theme@,
                    str_of(session_id),
                    replacement_id(id_text, content@),
                ));
                Err(error)
            },
        }
    }

    /// Returns the last `limit` mementos of a theme, newest first.
    pub fn cmd_peek_memento(
        &self,
        theme: &str,
        limit: usize,
        session_id: Option<&str>,
    ) -> (r: Peeked)
        ensures
            r.theme@ == theme@,
            views(r.mementos@) == peeked_mementos(
                latest_mementos(self@.mementos, theme@, str_of(session_id), limit as nat),
            ),
    {
        let keep = |m: &Memento| -> (r: bool)
            ensures
                r == memento_matches(theme@, str_of(session_id))(m@),
            { same_text(m.theme.as_str(), theme) && same_optional(&m.session_id, session_id) };
        let matching: Vec<&Memento> = select(
            &self.mementos,
            keep,
            Ghost(memento_matches(theme@, str_of(session_id))),
        );
        let order: Vec<&Memento> = rank(&matching);
        let count: usize = if order.len() <= limit {
            order.len()
        } else {
            limit
        };
        let ghost chosen = latest_mementos(
            self@.mementos,
            theme@,
            str_of(session_id),
            limit as nat,
        );
        assert(chosen =~= Seq::new(
            count as nat,
            |i: int| views(order@)[order@.len() - 1 - i],
        ));
        let mut mementos: Vec<PeekedMemento> = Vec::new();
        let mut i: usize = 0;
        while i < count
            invariant
                i == mementos@.len() <= count <= order@.len(),
                chosen == Seq::new(count as nat, |i: int| views(order@)[order@.len() - 1 - i]),
                forall|k: int|
                    0 <= k < i ==> (#[trigger] mementos@[k])@ == peeked_memento(chosen[k]),
            decreases count - i,
        {
            let m: &Memento = order[order.len() - 1 - i];
            assert(chosen[i as int] == m@);
            mementos.push(
                PeekedMemento {
                    content: m.content.clone(),
                    stored_at: format_unix_secs(double_to_whole(m.stored_at)),
                    archived_at: format_unix_secs(double_to_whole(m.archived_at)),
                    metadata: metadata_from_text(&m.metadata),
                },
            );
            i = i + 1;
        }
        assert(views(mementos@) =~= peeked_mementos(chosen));
        Peeked { theme: theme.to_string(), mementos }
    }
}

} // verus!
