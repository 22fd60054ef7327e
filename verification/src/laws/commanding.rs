//! Laws of commands: what each command answers and what it leaves behind, in terms of
//! what it was given.

use crate::calendar::{date_time_text, iso8601_text};
use crate::codec::decoded;
use crate::command::{answered, drawn, written_in_parts, Command, Draw, Reply};
use crate::ids::{is_session_id, is_uuid};
use crate::index::{search_hits, IndexModel};
use crate::json::{json_text, json_value};
use crate::laws::chatting::{
    law_create_adds_session, law_delete_session_removes, law_get_session,
    law_list_tells_of_session, law_store_edits_sessions, law_update_edits_sessions,
};
use crate::laws::consistency::{mirrors, unique_entries};
use crate::laws::counting::{law_dimensions_told, law_list_summary};
use crate::laws::pruning::{
    law_prune_keeps, law_prune_leaves_nothing_old, law_prune_touches_entries_alone,
    lemma_part_number,
};
use crate::laws::recalling::{
    law_delete_removes, law_recall_tells, law_store_refused, law_stored_row,
};
use crate::laws::replacing::{
    law_peek_tells, law_replace_adds_mementos, law_replace_refused, law_replace_removes_active,
    law_replacement_row,
};
use crate::laws::searching::{law_search_refused, law_search_tells_of_every_hit};
use crate::listing::{distinct_themes, listed, theme_summaries};
use crate::mementos::{active, latest_mementos, peeked_mementos, replacement, Replaced};
use crate::numbers::{double_is_nan, double_key, double_whole, is_time};
use crate::recall::{latest_entries, recalled_entries};
use crate::retention::{prune_parts, staying};
use crate::rows::{lemma_filter_has, lemma_filter_same, lemma_ranked_same_rows, views, window};
use crate::search::found_entries;
use crate::sessions::{session_page, session_summaries};
use crate::store::{loaded_index, PlanModel, StoreModel};
use crate::tables::{Entry, EntryModel, SessionModel};
use crate::text::text_of;
use crate::writing::Stored;
use serde_json::Value;
use vstd::prelude::*;

verus! {

/// What is drawn for a command: an identifier of 36 characters for an entry, one of eight
/// for a session, two times that are finite and not negative, and a written time.
pub proof fn law_drawn(draw: Draw)
    requires
        drawn(draw),
    ensures
        draw.entry_id@.len() == 36,
        draw.entry_id@[8] == '-' && draw.entry_id@[13] == '-' && draw.entry_id@[18] == '-'
            && draw.entry_id@[23] == '-',
        draw.entry_id@[14] == '4',
        draw.session_id@.len() == 8,
        forall|i: int|
            0 <= i < 8 ==> '0' <= #[trigger] draw.session_id@[i] <= '9' || 'a'
                <= draw.session_id@[i] <= 'f',
        draw.archived_at < 0x7ff0_0000_0000_0000,
        draw.stored_at < 0x7ff0_0000_0000_0000,
        exists|secs: u64| draw.now@ == #[trigger] iso8601_text(secs as nat),
{
    assert(is_uuid(draw.entry_id@));
    assert(draw.entry_id@[8] == '-');
    assert(draw.entry_id@[13] == '-');
    assert(draw.entry_id@[18] == '-');
    assert(draw.entry_id@[23] == '-');
    assert(is_session_id(draw.session_id@));
    assert(is_time(draw.archived_at) && is_time(draw.stored_at));
}

/// `store` adds an entry with the theme, the content, the session and the vector given,
/// to the table and to the index, with the identifier and the time that were drawn, and
/// counts a message for its session. The vector in the index is the one given, component
/// for component, and the bytes in the table hold it.
pub proof fn law_store_command(
    before: StoreModel,
    after: StoreModel,
    theme: String,
    content: String,
    vector: Vec<u32>,
    metadata: Option<Value>,
    session_id: Option<String>,
    draw: Draw,
    r: Stored,
    i: int,
)
    requires
        answered(
            before,
            after,
            (Command::Store { theme, content, vector, metadata, session_id }),
            draw,
            Reply::Stored(r),
        ),
    ensures
        r.theme@ == theme@,
        vector@.len() > 0,
        before.index.len() > 0 ==> vector@.len() == before.index[0].vector.len(),
        forall|k: int|
            0 <= k < before.entries.len() ==> (#[trigger] before.entries[k]).id != draw.entry_id@,
        after.entries.len() == before.entries.len() + 1,
        after.entries.drop_last() == before.entries,
        after.entries.last().id == draw.entry_id@,
        after.entries.last().theme == theme@,
        after.entries.last().content == content@,
        decoded(after.entries.last().vector) == vector@,
        after.entries.last().vector.len() == 4 * vector@.len(),
        after.entries.last().stored_at == draw.stored_at,
        metadata is None ==> after.entries.last().metadata is None,
        metadata is Some ==> after.entries.last().metadata == Some(json_text(metadata->0)),
        session_id is None ==> after.entries.last().session_id is None,
        session_id is Some ==> after.entries.last().session_id == Some(session_id->0@),
        after.index.len() == before.index.len() + 1,
        after.index.drop_last() == before.index,
        after.index.last().id == draw.entry_id@,
        after.index.last().theme == theme@,
        after.index.last().vector == vector@,
        after.index.last().session_id == after.entries.last().session_id,
        after.mementos == before.mementos,
        after.storage_path == before.storage_path,
        after.sessions.len() == before.sessions.len(),
        0 <= i < before.sessions.len() ==> {
            let s = before.sessions[i];
            let t = after.sessions[i];
            &&& t.id == s.id
            &&& t.title == s.title
            &&& t.created_at == s.created_at
            &&& t.rolling_summary == s.rolling_summary
            &&& session_id is None || session_id->0@ != s.id ==> t == s
            &&& session_id is Some && session_id->0@ == s.id ==> {
                &&& t.updated_at == draw.now@
                &&& s.message_count < 0x7fff_ffff_ffff_ffff ==> t.message_count == s.message_count
                    + 1
                &&& s.message_count == 0x7fff_ffff_ffff_ffff ==> t.message_count == s.message_count
            }
        },
{
    law_stored_row(
        before,
        draw.entry_id@,
        theme@,
        content@,
        vector@,
        draw.stored_at,
        metadata,
        text_of(session_id),
        draw.now@,
    );
    law_store_refused(before, vector@.len(), draw.entry_id@);
    if 0 <= i < before.sessions.len() {
        law_store_edits_sessions(before, after.entries.last(), draw.now@, i);
    }
}

/// `store` is refused exactly if the vector is empty, if its dimension is not that of the
/// first vector of the index, or if the identifier that was drawn is taken; nothing is
/// changed then.
pub proof fn law_store_command_refused(
    before: StoreModel,
    after: StoreModel,
    theme: String,
    content: String,
    vector: Vec<u32>,
    metadata: Option<Value>,
    session_id: Option<String>,
    draw: Draw,
    reply: Reply,
)
    requires
        answered(
            before,
            after,
            (Command::Store { theme, content, vector, metadata, session_id }),
            draw,
            reply,
        ),
    ensures
        reply is Stored || reply is Failed,
        reply is Failed <==> {
            ||| vector@.len() == 0
            ||| before.index.len() > 0 && vector@.len() != before.index[0].vector.len()
            ||| exists|k: int|
                0 <= k < before.entries.len() && (#[trigger] before.entries[k]).id
                    == draw.entry_id@
        },
        reply is Failed ==> after == before,
{
    law_store_refused(before, vector@.len(), draw.entry_id@);
}

/// `recall` tells of the latest entries of the theme, and with a session of that session
/// alone, no more than the limit: content, theme, time, session, and metadata as far as
/// their text is JSON. It finds something exactly if it tells of an entry, and changes
/// nothing.
pub proof fn law_recall_command(
    before: StoreModel,
    after: StoreModel,
    theme: String,
    limit: usize,
    session_id: Option<String>,
    draw: Draw,
    reply: Reply,
)
    requires
        answered(
            before,
            after,
            (Command::Recall { theme, limit, session_id }),
            draw,
            reply,
        ),
    ensures
        after == before,
        reply is Recalled,
        ({
            let r = reply->Recalled_0;
            let latest = latest_entries(before.entries, theme@, text_of(session_id), limit as nat);
            &&& r.theme@ == theme@
            &&& r.found <==> latest.len() > 0
            &&& r.entries@.len() == latest.len()
            &&& forall|i: int|
                0 <= i < latest.len() ==> {
                    let told = #[trigger] r.entries@[i];
                    &&& told.content@ == latest[i].content
                    &&& told.theme@ == latest[i].theme
                    &&& told.stored_at == latest[i].stored_at
                    &&& text_of(told.session_id) == latest[i].session_id
                    &&& latest[i].metadata is None ==> told.metadata is None
                    &&& latest[i].metadata is Some ==> told.metadata == json_value(
                        latest[i].metadata->0,
                    )
                }
        }),
{
    let r = reply->Recalled_0;
    let latest = latest_entries(before.entries, theme@, text_of(session_id), limit as nat);
    assert(views(r.entries@).len() == recalled_entries(latest).len());
    assert forall|i: int| 0 <= i < latest.len() implies {
        let told = #[trigger] r.entries@[i];
        &&& told.content@ == latest[i].content
        &&& told.theme@ == latest[i].theme
        &&& told.stored_at == latest[i].stored_at
        &&& text_of(told.session_id) == latest[i].session_id
        &&& latest[i].metadata is None ==> told.metadata is None
        &&& latest[i].metadata is Some ==> told.metadata == json_value(latest[i].metadata->0)
    } by {
        law_recall_tells(latest, i);
        assert(views(r.entries@)[i] == recalled_entries(latest)[i]);
    }
}

/// `search` passes over `offset` hits and tells of the next ones, no more than `top_k`, of
/// each its score, and content, theme, time and session of its entry; if the index
/// mirrors the entries. It is refused exactly if it would tell of more hits than the
/// database takes in one query. It changes nothing.
pub proof fn law_search_command(
    before: StoreModel,
    after: StoreModel,
    scores: Vec<u32>,
    top_k: usize,
    offset: usize,
    min_score: u32,
    theme: Option<String>,
    session_id: Option<String>,
    draw: Draw,
    reply: Reply,
)
    requires
        answered(
            before,
            after,
            (Command::Search { scores, top_k, offset, min_score, theme, session_id }),
            draw,
            reply,
        ),
        mirrors(before),
        unique_entries(before.entries),
    ensures
        after == before,
        ({
            let all = search_hits(
                before.index,
                scores@,
                min_score,
                text_of(theme),
                text_of(session_id),
            );
            &&& reply is Found || reply is Failed
            &&& reply is Failed <==> top_k > 32_766 && all.len() - offset > 32_766
            &&& reply is Failed ==> reply->Failed_0@ == "too many SQL variables"@
            &&& reply is Found ==> {
                let r = reply->Found_0;
                &&& r.available
                &&& r.results@.len() == if all.len() <= offset {
                    0
                } else if all.len() - offset <= top_k {
                    all.len() - offset
                } else {
                    top_k as int
                }
                &&& forall|a: int|
                    0 <= a < r.results@.len() ==> {
                        let told = #[trigger] r.results@[a];
                        &&& told.score == all[offset + a].score
                        &&& exists|k: int|
                            {
                                &&& 0 <= k < before.entries.len()
                                &&& (#[trigger] before.entries[k]).id == all[offset + a].id
                                &&& told.content@ == before.entries[k].content
                                &&& told.theme@ == before.entries[k].theme
                                &&& told.stored_at == before.entries[k].stored_at
                                &&& text_of(told.session_id) == before.entries[k].session_id
                            }
                    }
            }
        }),
{
    let all = search_hits(before.index, scores@, min_score, text_of(theme), text_of(session_id));
    law_search_refused(
        before,
        scores@,
        top_k as nat,
        offset as nat,
        min_score,
        text_of(theme),
        text_of(session_id),
    );
    if let Reply::Found(r) = reply {
        law_search_tells_of_every_hit(
            before,
            scores@,
            top_k as nat,
            offset as nat,
            min_score,
            text_of(theme),
            text_of(session_id),
        );
        let results = views(r.results@);
        assert forall|a: int| 0 <= a < r.results@.len() implies {
            let told = #[trigger] r.results@[a];
            &&& told.score == all[offset + a].score
            &&& exists|k: int|
                {
                    &&& 0 <= k < before.entries.len()
                    &&& (#[trigger] before.entries[k]).id == all[offset + a].id
                    &&& told.content@ == before.entries[k].content
                    &&& told.theme@ == before.entries[k].theme
                    &&& told.stored_at == before.entries[k].stored_at
                    &&& text_of(told.session_id) == before.entries[k].session_id
                }
        } by {
            assert(results[a] == r.results@[a]@);
            let k = choose|k: int|
                {
                    &&& 0 <= k < before.entries.len()
                    &&& (#[trigger] before.entries[k]).id == all[offset + a].id
                    &&& results[a].content == before.entries[k].content
                    &&& results[a].theme == before.entries[k].theme
                    &&& results[a].stored_at == before.entries[k].stored_at
                    &&& results[a].session_id == before.entries[k].session_id
                };
            assert(before.entries[k].id == all[offset + a].id);
        }
    }
}

/// `search` answers what the search for the theme and the session asked for tells, whatever
/// the index holds, and changes nothing.
pub proof fn law_search_command_answer(
    before: StoreModel,
    after: StoreModel,
    scores: Vec<u32>,
    top_k: usize,
    offset: usize,
    min_score: u32,
    theme: Option<String>,
    session_id: Option<String>,
    draw: Draw,
    reply: Reply,
)
    requires
        answered(
            before,
            after,
            (Command::Search { scores, top_k, offset, min_score, theme, session_id }),
            draw,
            reply,
        ),
    ensures
        after == before,
        reply is Found || reply is Failed,
        ({
            let hits = window(
                search_hits(
                    before.index,
                    scores@,
                    min_score,
                    text_of(theme),
                    text_of(session_id),
                ),
                offset as nat,
                top_k as nat,
            );
            &&& reply is Failed <==> hits.len() > 32_766
            &&& reply is Failed ==> reply->Failed_0@ == "too many SQL variables"@
            &&& reply is Found ==> reply->Found_0.available && views(reply->Found_0.results@)
                == found_entries(hits, before.entries)
        }),
{
}

/// `list` tells of each theme that can be seen how many of its entries can be, and the
/// time at which the latest of those was stored. With a session, global entries and
/// those of that session can be seen. It changes nothing.
pub proof fn law_list_command(
    before: StoreModel,
    after: StoreModel,
    session_id: Option<String>,
    draw: Draw,
    reply: Reply,
    i: int,
)
    requires
        answered(before, after, (Command::List { session_id }), draw, reply),
    ensures
        after == before,
        reply is Themes,
        reply->Themes_0.themes@.len() == theme_summaries(
            before.entries.filter(listed(text_of(session_id))),
        ).len(),
        0 <= i < reply->Themes_0.themes@.len() ==> {
            let t = reply->Themes_0.themes@[i];
            let own = before.entries.filter(
                |e: EntryModel|
                    e.theme == t.theme@ && (session_id is None || e.session_id is None
                        || e.session_id == Some(session_id->0@)),
            );
            &&& t.entries == own.len()
            &&& exists|k: int|
                {
                    &&& 0 <= k < own.len()
                    &&& t.last_modified@ == date_time_text(
                        double_whole((#[trigger] own[k]).stored_at) as nat,
                        ' ',
                    )
                    &&& forall|j: int|
                        0 <= j < own.len() ==> double_key((#[trigger] own[j]).stored_at)
                            <= double_key(own[k].stored_at)
                }
        },
{
    let r = reply->Themes_0;
    let session = text_of(session_id);
    let summaries = theme_summaries(before.entries.filter(listed(session)));
    assert(views(r.themes@).len() == summaries.len());
    if 0 <= i < r.themes@.len() {
        law_list_summary(before.entries, session, i);
        let t = r.themes@[i];
        assert(views(r.themes@)[i] == t@);
        let summary = summaries[i];
        let seen = |e: EntryModel|
            e.theme == summary.theme && (session is None || e.session_id is None || e.session_id
                == session);
        let asked = |e: EntryModel|
            e.theme == t.theme@ && (session_id is None || e.session_id is None || e.session_id
                == Some(session_id->0@));
        lemma_filter_same(before.entries, seen, asked);
        let own = before.entries.filter(asked);
        let k = choose|k: int|
            {
                &&& 0 <= k < before.entries.len()
                &&& (#[trigger] before.entries[k]).theme == summary.theme
                &&& session is None || before.entries[k].session_id is None
                    || before.entries[k].session_id == session
                &&& summary.last_modified == date_time_text(
                    double_whole(before.entries[k].stored_at) as nat,
                    ' ',
                )
                &&& forall|j: int|
                    0 <= j < before.entries.len() && (#[trigger] before.entries[j]).theme
                        == summary.theme && (session is None || before.entries[j].session_id is None
                        || before.entries[j].session_id == session) ==> double_key(
                        before.entries[j].stored_at,
                    ) <= double_key(before.entries[k].stored_at)
            };
        assert(before.entries.contains(before.entries[k]));
        lemma_filter_has(before.entries, asked, before.entries[k]);
        let x = choose|x: int| 0 <= x < own.len() && own[x] == before.entries[k];
        assert forall|j: int| 0 <= j < own.len() implies double_key((#[trigger] own[j]).stored_at)
            <= double_key(own[x].stored_at) by {
            assert(own.contains(own[j]));
            lemma_filter_has(before.entries, asked, own[j]);
            let y = choose|y: int| 0 <= y < before.entries.len() && before.entries[y] == own[j];
            assert(before.entries[y].theme == summary.theme);
        }
        assert(own[x].stored_at == before.entries[k].stored_at);
    }
}

/// `delete` takes the entries of the theme away, from the table and from the index, and
/// nothing else, and tells whether there was one.
pub proof fn law_delete_command(
    before: StoreModel,
    after: StoreModel,
    theme: String,
    draw: Draw,
    reply: Reply,
)
    requires
        answered(before, after, (Command::Delete { theme }), draw, reply),
    ensures
        reply is Deleted,
        reply->Deleted_0.theme@ == theme@,
        reply->Deleted_0.deleted <==> exists|i: int|
            0 <= i < before.entries.len() && (#[trigger] before.entries[i]).theme == theme@,
        after.entries == before.entries.filter(|e: EntryModel| e.theme != theme@),
        after.index == before.index.filter(|e: IndexModel| e.theme != theme@),
        after.sessions == before.sessions,
        after.mementos == before.mementos,
        after.storage_path == before.storage_path,
{
    law_delete_removes(before, theme@);
}

/// `prune` leaves no entry that is global and whose time is a number less than the cutoff,
/// and takes no entry away that is not so as long as no more than `max_per_theme` entries
/// share its theme and its session. It tells how many entries have gone.
pub proof fn law_prune_command(
    before: StoreModel,
    after: StoreModel,
    cutoff: u64,
    max_per_theme: usize,
    draw: Draw,
    reply: Reply,
    e: EntryModel,
)
    requires
        answered(before, after, (Command::Prune { cutoff, max_per_theme }), draw, reply),
    ensures
        reply is Pruned,
        reply->Pruned_0.pruned == before.entries.len() - after.entries.len(),
        after.sessions == before.sessions,
        after.mementos == before.mementos,
        after.storage_path == before.storage_path,
        after.entries.contains(e) ==> before.entries.contains(e) && !(e.session_id is None
            && !double_is_nan(e.stored_at) && !double_is_nan(cutoff) && double_key(e.stored_at)
            < double_key(cutoff)),
        before.entries.contains(e) && !(e.session_id is None && !double_is_nan(e.stored_at)
            && !double_is_nan(cutoff) && double_key(e.stored_at) < double_key(cutoff))
            && before.entries.filter(
            |x: EntryModel| x.theme == e.theme && x.session_id == e.session_id,
        ).len() <= max_per_theme ==> after.entries.contains(e),
{
    law_prune_touches_entries_alone(before, cutoff, max_per_theme as nat);
    if after.entries.contains(e) {
        law_prune_leaves_nothing_old(before.entries, cutoff, max_per_theme as nat, e);
    }
    if before.entries.contains(e) && !(e.session_id is None && !double_is_nan(e.stored_at)
        && !double_is_nan(cutoff) && double_key(e.stored_at) < double_key(cutoff))
        && before.entries.filter(
        |x: EntryModel| x.theme == e.theme && x.session_id == e.session_id,
    ).len() <= max_per_theme {
        let i = choose|i: int| 0 <= i < before.entries.len() && before.entries[i] == e;
        lemma_filter_same(
            before.entries,
            |x: EntryModel| x.theme == e.theme && x.session_id == e.session_id,
            |x: EntryModel|
                x.theme == before.entries[i].theme && x.session_id == before.entries[i].session_id,
        );
        law_prune_keeps(before.entries, cutoff, max_per_theme as nat, i);
    }
}

/// `replace_active` takes the entries of the theme and the session away, adds a memento for
/// each of them, with all its fields, archived at the time that was drawn, and adds a new
/// entry with the theme, the content, the session and the vector given, to the table and
/// to the index; or none if the content is empty.
pub proof fn law_replace_command(
    before: StoreModel,
    after: StoreModel,
    theme: String,
    content: String,
    vector: Vec<u32>,
    metadata: Option<Value>,
    session_id: Option<String>,
    draw: Draw,
    r: Replaced,
    i: int,
)
    requires
        answered(
            before,
            after,
            (Command::ReplaceActive { theme, content, vector, metadata, session_id }),
            draw,
            Reply::Replaced(r),
        ),
    ensures
        ({
            let session = text_of(session_id);
            let leaving = before.entries.filter(
                |e: EntryModel| e.theme == theme@ && e.session_id == session,
            );
            let left = before.entries.filter(
                |e: EntryModel| e.theme != theme@ || e.session_id != session,
            );
            let indexed = before.index.filter(
                |e: IndexModel| e.theme != theme@ || e.session_id != session,
            );
            let n = before.mementos.len();
            &&& r.theme@ == theme@
            &&& r.archived <==> leaving.len() > 0
            &&& r.forgotten <==> content@.len() == 0
            &&& after.sessions == before.sessions
            &&& after.storage_path == before.storage_path
            &&& after.mementos.len() == n + leaving.len()
            &&& after.mementos.take(n as int) == before.mementos
            &&& 0 <= i < leaving.len() ==> {
                let m = after.mementos[n + i];
                &&& m.id == leaving[i].id
                &&& m.theme == leaving[i].theme
                &&& m.content == leaving[i].content
                &&& m.vector == leaving[i].vector
                &&& m.stored_at == leaving[i].stored_at
                &&& m.archived_at == draw.archived_at
                &&& m.metadata == leaving[i].metadata
                &&& m.session_id == leaving[i].session_id
            }
            &&& content@.len() == 0 ==> after.entries == left && after.index == indexed
            &&& content@.len() > 0 ==> {
                let e = after.entries.last();
                let x = after.index.last();
                &&& after.entries.len() == left.len() + 1
                &&& after.entries.drop_last() == left
                &&& e.id == draw.entry_id@
                &&& e.theme == theme@
                &&& e.content == content@
                &&& decoded(e.vector) == vector@
                &&& e.vector.len() == 4 * vector@.len()
                &&& e.stored_at == draw.stored_at
                &&& metadata is None ==> e.metadata is None
                &&& metadata is Some ==> e.metadata == Some(json_text(metadata->0))
                &&& e.session_id == session
                &&& after.index.len() == indexed.len() + 1
                &&& after.index.drop_last() == indexed
                &&& x.id == draw.entry_id@
                &&& x.theme == theme@
                &&& x.vector == vector@
                &&& x.session_id == session
            }
        }),
{
    let session = text_of(session_id);
    let add = replacement(
        draw.entry_id@,
        theme@,
        content@,
        vector@,
        draw.stored_at,
        metadata,
        session,
    );
    law_replacement_row(
        before,
        draw.entry_id@,
        theme@,
        content@,
        vector@,
        draw.stored_at,
        metadata,
        session,
        draw.archived_at,
    );
    law_replace_adds_mementos(before, theme@, session, draw.archived_at, add);
    law_replace_removes_active(before, theme@, session, draw.archived_at, add);
    lemma_filter_same(
        before.entries,
        |e: EntryModel| e.theme == theme@ && e.session_id == session,
        active(theme@, session),
    );
    if add is Some {
        let left = before.entries.filter(
            |e: EntryModel| e.theme != theme@ || e.session_id != session,
        );
        assert((left + seq![add->0]).drop_last() =~= left);
    }
}

/// `replace_active` is refused exactly if an identifier would occur twice; nothing is
/// changed then.
pub proof fn law_replace_command_refused(
    before: StoreModel,
    after: StoreModel,
    theme: String,
    content: String,
    vector: Vec<u32>,
    metadata: Option<Value>,
    session_id: Option<String>,
    draw: Draw,
    reply: Reply,
)
    requires
        answered(
            before,
            after,
            (Command::ReplaceActive { theme, content, vector, metadata, session_id }),
            draw,
            reply,
        ),
        unique_entries(before.entries),
    ensures
        reply is Replaced || reply is Failed,
        reply is Failed ==> after == before,
        reply is Failed <==> {
            ||| exists|k: int, m: int|
                {
                    &&& 0 <= k < before.entries.len()
                    &&& 0 <= m < before.mementos.len()
                    &&& (#[trigger] before.entries[k]).theme == theme@
                    &&& before.entries[k].session_id == text_of(session_id)
                    &&& (#[trigger] before.mementos[m]).id == before.entries[k].id
                }
            ||| content@.len() > 0 && exists|k: int|
                {
                    &&& 0 <= k < before.entries.len()
                    &&& (#[trigger] before.entries[k]).id == draw.entry_id@
                    &&& before.entries[k].theme != theme@ || before.entries[k].session_id
                        != text_of(session_id)
                }
        },
{
    law_replace_refused(before, theme@, text_of(session_id), draw.entry_id@, content@);
}

/// `peek_memento` tells of the latest mementos of the theme and the session, no more than
/// the limit: content, the times at which they were stored and archived, and metadata as
/// far as their text is JSON. It changes nothing.
pub proof fn law_peek_command(
    before: StoreModel,
    after: StoreModel,
    theme: String,
    limit: usize,
    session_id: Option<String>,
    draw: Draw,
    reply: Reply,
)
    requires
        answered(
            before,
            after,
            (Command::PeekMemento { theme, limit, session_id }),
            draw,
            reply,
        ),
    ensures
        after == before,
        reply is Peeked,
        ({
            let r = reply->Peeked_0;
            let latest = latest_mementos(
                before.mementos,
                theme@,
                text_of(session_id),
                limit as nat,
            );
            &&& r.theme@ == theme@
            &&& r.mementos@.len() == latest.len()
            &&& forall|i: int|
                0 <= i < latest.len() ==> {
                    let told = #[trigger] r.mementos@[i];
                    let m = latest[i];
                    &&& told.content@ == m.content
                    &&& told.stored_at@ == date_time_text(double_whole(m.stored_at) as nat, ' ')
                    &&& told.archived_at@ == date_time_text(
                        double_whole(m.archived_at) as nat,
                        ' ',
                    )
                    &&& m.metadata is None ==> told.metadata is None
                    &&& m.metadata is Some ==> told.metadata == json_value(m.metadata->0)
                }
        }),
{
    let r = reply->Peeked_0;
    let latest = latest_mementos(before.mementos, theme@, text_of(session_id), limit as nat);
    assert(views(r.mementos@).len() == peeked_mementos(latest).len());
    assert forall|i: int| 0 <= i < latest.len() implies {
        let told = #[trigger] r.mementos@[i];
        let m = latest[i];
        &&& told.content@ == m.content
        &&& told.stored_at@ == date_time_text(double_whole(m.stored_at) as nat, ' ')
        &&& told.archived_at@ == date_time_text(double_whole(m.archived_at) as nat, ' ')
        &&& m.metadata is None ==> told.metadata is None
        &&& m.metadata is Some ==> told.metadata == json_value(m.metadata->0)
    } by {
        law_peek_tells(latest, i);
        assert(views(r.mementos@)[i] == peeked_mementos(latest)[i]);
    }
}

/// `reindex` builds the index from the entries and tells how many there are; nothing else
/// changes.
pub proof fn law_reindex_command(
    before: StoreModel,
    after: StoreModel,
    draw: Draw,
    reply: Reply,
)
    requires
        answered(before, after, Command::Reindex, draw, reply),
    ensures
        reply is Reindexed,
        reply->Reindexed_0.indexed == before.entries.len(),
        after.index == loaded_index(before.entries),
        after.entries == before.entries,
        after.sessions == before.sessions,
        after.mementos == before.mementos,
        after.storage_path == before.storage_path,
{
    lemma_ranked_same_rows::<Entry>(before.entries);
}

/// `status` tells how many entries there are and of how many themes, the dimension of the
/// first vector, how many vectors there are of each dimension, and where the store lies.
/// It changes nothing.
pub proof fn law_status_command(
    before: StoreModel,
    after: StoreModel,
    draw: Draw,
    reply: Reply,
)
    requires
        answered(before, after, Command::Status, draw, reply),
    ensures
        after == before,
        reply is Status,
        ({
            let r = reply->Status_0;
            let counts = r.dimension_histogram@;
            &&& r.total_entries == before.entries.len()
            &&& r.themes == distinct_themes(before.entries).len()
            &&& before.index.len() == 0 ==> r.vector_dimensions == 0
            &&& before.index.len() > 0 ==> r.vector_dimensions == before.index[0].vector.len()
            &&& r.storage_path@ == before.storage_path
            &&& forall|i: int|
                0 <= i < counts.len() ==> (#[trigger] counts[i]).count == before.index.filter(
                    |e: IndexModel| e.vector.len() == counts[i].dimension,
                ).len()
            &&& forall|k: int|
                0 <= k < before.index.len() ==> exists|i: int|
                    0 <= i < counts.len() && (#[trigger] counts[i]).dimension == (
                    #[trigger] before.index[k]).vector.len()
        }),
{
    law_dimensions_told(reply->Status_0.dimension_histogram@, before.index);
}

/// `create_session` adds a session with the title given, or the standing one if none is,
/// and with the identifier and the time that were drawn, which it tells. It is refused
/// exactly if a session has that identifier; nothing is changed then.
pub proof fn law_create_command(
    before: StoreModel,
    after: StoreModel,
    title: String,
    draw: Draw,
    reply: Reply,
)
    requires
        answered(before, after, (Command::CreateSession { title }), draw, reply),
    ensures
        reply is Created || reply is Failed,
        reply is Failed <==> exists|i: int|
            0 <= i < before.sessions.len() && (#[trigger] before.sessions[i]).id
                == draw.session_id@,
        reply is Failed ==> after == before && reply->Failed_0@
            == "UNIQUE constraint failed: sessions.id"@,
        reply is Created ==> {
            let r = reply->Created_0;
            let s = after.sessions.last();
            &&& r.session_id@ == draw.session_id@
            &&& r.created_at@ == draw.now@
            &&& after.sessions.len() == before.sessions.len() + 1
            &&& after.sessions.drop_last() == before.sessions
            &&& s.id == draw.session_id@
            &&& title@.len() > 0 ==> s.title == title@
            &&& title@.len() == 0 ==> s.title == "New chat"@
            &&& s.created_at == draw.now@
            &&& s.updated_at == draw.now@
            &&& s.message_count == 0
            &&& s.rolling_summary.len() == 0
            &&& after.entries == before.entries
            &&& after.mementos == before.mementos
            &&& after.index == before.index
            &&& after.storage_path == before.storage_path
        },
{
    law_get_session(before.sessions, draw.session_id@);
    law_create_adds_session(before, draw.session_id@, title@, draw.now@);
}

/// `list_sessions` tells of the sessions of a page: identifier, title, times and message
/// count. It changes nothing.
pub proof fn law_list_sessions_command(
    before: StoreModel,
    after: StoreModel,
    limit: usize,
    offset: usize,
    draw: Draw,
    reply: Reply,
)
    requires
        answered(before, after, (Command::ListSessions { limit, offset }), draw, reply),
    ensures
        after == before,
        reply is Sessions,
        ({
            let r = reply->Sessions_0.sessions@;
            let page = session_page(before.sessions, limit as nat, offset as nat);
            &&& r.len() == page.len()
            &&& forall|i: int|
                0 <= i < page.len() ==> {
                    &&& (#[trigger] r[i]).id@ == page[i].id
                    &&& r[i].title@ == page[i].title
                    &&& r[i].created_at@ == page[i].created_at
                    &&& r[i].updated_at@ == page[i].updated_at
                    &&& r[i].message_count == page[i].message_count
                }
        }),
{
    let r = reply->Sessions_0.sessions@;
    let page = session_page(before.sessions, limit as nat, offset as nat);
    assert(views(r).len() == session_summaries(page).len());
    assert forall|i: int| 0 <= i < page.len() implies {
        &&& (#[trigger] r[i]).id@ == page[i].id
        &&& r[i].title@ == page[i].title
        &&& r[i].created_at@ == page[i].created_at
        &&& r[i].updated_at@ == page[i].updated_at
        &&& r[i].message_count == page[i].message_count
    } by {
        law_list_tells_of_session(page, i);
        assert(views(r)[i] == session_summaries(page)[i]);
    }
}

/// `get_session` tells all of a session with the identifier asked for, and fails exactly
/// if there is none; the reason names the identifier. It changes nothing.
pub proof fn law_get_command(
    before: StoreModel,
    after: StoreModel,
    session_id: String,
    draw: Draw,
    reply: Reply,
)
    requires
        answered(before, after, (Command::GetSession { session_id }), draw, reply),
    ensures
        after == before,
        reply is Session || reply is Failed,
        reply is Failed <==> forall|i: int|
            0 <= i < before.sessions.len() ==> (#[trigger] before.sessions[i]).id != session_id@,
        reply is Failed ==> reply->Failed_0@ == "session not found: "@ + session_id@,
        reply is Session ==> exists|i: int|
            {
                let s = reply->Session_0;
                &&& 0 <= i < before.sessions.len()
                &&& (#[trigger] before.sessions[i]).id == session_id@
                &&& s.id@ == session_id@
                &&& s.title@ == before.sessions[i].title
                &&& s.created_at@ == before.sessions[i].created_at
                &&& s.updated_at@ == before.sessions[i].updated_at
                &&& s.message_count == before.sessions[i].message_count
                &&& s.rolling_summary@ == before.sessions[i].rolling_summary
            },
{
    law_get_session(before.sessions, session_id@);
    if let Reply::Session(s) = reply {
        let i = choose|i: int| 0 <= i < before.sessions.len() && before.sessions[i] == s@;
        assert(before.sessions[i].id == session_id@);
    }
}

/// `update_session` changes the sessions with the identifier given, title and summary where
/// they are given, and the time of the last change, and nothing else.
pub proof fn law_update_command(
    before: StoreModel,
    after: StoreModel,
    session_id: String,
    title: Option<String>,
    rolling_summary: Option<String>,
    draw: Draw,
    reply: Reply,
    i: int,
)
    requires
        answered(
            before,
            after,
            (Command::UpdateSession { session_id, title, rolling_summary }),
            draw,
            reply,
        ),
    ensures
        reply is Updated,
        after.sessions.len() == before.sessions.len(),
        after.entries == before.entries,
        after.mementos == before.mementos,
        after.index == before.index,
        after.storage_path == before.storage_path,
        0 <= i < before.sessions.len() ==> {
            let s = before.sessions[i];
            let t = after.sessions[i];
            &&& s.id != session_id@ ==> t == s
            &&& t.id == s.id
            &&& t.created_at == s.created_at
            &&& t.message_count == s.message_count
            &&& s.id == session_id@ ==> {
                &&& t.updated_at == draw.now@
                &&& title is Some ==> t.title == title->0@
                &&& title is None ==> t.title == s.title
                &&& rolling_summary is Some ==> t.rolling_summary == rolling_summary->0@
                &&& rolling_summary is None ==> t.rolling_summary == s.rolling_summary
            }
        },
{
    if 0 <= i < before.sessions.len() {
        law_update_edits_sessions(
            before,
            session_id@,
            text_of(title),
            text_of(rolling_summary),
            draw.now@,
            i,
        );
    }
}

/// `delete_session` takes the session and its entries away, from the tables and from the
/// index, and nothing else, and tells how many entries have gone.
pub proof fn law_delete_session_command(
    before: StoreModel,
    after: StoreModel,
    session_id: String,
    draw: Draw,
    reply: Reply,
)
    requires
        answered(before, after, (Command::DeleteSession { session_id }), draw, reply),
    ensures
        reply is SessionDeleted,
        reply->SessionDeleted_0.deleted_entries == before.entries.len() - after.entries.len(),
        after.entries == before.entries.filter(
            |e: EntryModel| e.session_id != Some(session_id@),
        ),
        after.index == before.index.filter(|e: IndexModel| e.session_id != Some(session_id@)),
        after.sessions == before.sessions.filter(
            |s: SessionModel| s.id != session_id@,
        ),
        after.mementos == before.mementos,
        after.storage_path == before.storage_path,
{
    law_delete_session_removes(before, session_id@);
}

/// Pruning and the deletion of a session are written part by part, with a part for each
/// entry, and all other commands as a whole.
pub proof fn law_parts_of_command(store: StoreModel, cmd: Command, plan: PlanModel)
    requires
        written_in_parts(store, cmd, plan),
    ensures
        cmd is Prune || cmd is DeleteSession <==> plan.parts is Some,
        plan.parts is Some ==> (plan.parts->0).len() == store.entries.len() && plan.keep.len()
            == store.entries.len(),
        cmd matches Command::DeleteSession { session_id } ==> forall|i: int|
            0 <= i < store.entries.len() ==> (#[trigger] plan.keep[i] <==> store.entries[
                i
            ].session_id != Some(session_id@)) && (plan.parts->0)[i] == 0,
        cmd matches Command::Prune { cutoff, max_per_theme } ==> plan.keep == staying(
            store.entries,
            cutoff,
            max_per_theme as nat,
        ) && plan.parts->0 == prune_parts(store.entries, cutoff),
        cmd matches Command::Prune { cutoff, .. } ==> forall|i: int|
            0 <= i < store.entries.len() ==> ((#[trigger] (plan.parts->0)[i] == 0 <==> {
                let e = store.entries[i];
                e.session_id is None && !double_is_nan(e.stored_at) && !double_is_nan(cutoff)
                    && double_key(e.stored_at) < double_key(cutoff)
            }) || store.entries.len() > usize::MAX),
{
    if let Command::Prune { cutoff, max_per_theme } = cmd {
        assert forall|i: int| 0 <= i < store.entries.len() implies ((#[trigger] (plan.parts->0)[i]
            == 0 <==> {
            let e = store.entries[i];
            e.session_id is None && !double_is_nan(e.stored_at) && !double_is_nan(cutoff)
                && double_key(e.stored_at) < double_key(cutoff)
        }) || store.entries.len() > usize::MAX) by {
            lemma_part_number(store.entries, cutoff, i);
        }
    }
}

} // verus!
