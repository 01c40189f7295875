//! The history of a session changes no answer: whatever a session has been asked, and
//! however much of it the index remembers, a path leads where it leads in a fresh
//! session that keeps no index.

use vstd::prelude::*;

use crate::answers::{
    law_count_answers_from_the_document, law_fresh_session_is_sound,
    law_get_answers_from_the_document, law_lookup_answers_from_the_document,
    law_resolve_answers_from_the_document, law_sessions_answer_alike, path_is_text, session_sound,
};
use crate::cache::KeyView;
use crate::chunks::WindowView;
use crate::items::{
    law_breaking_off_keeps_the_session_true, law_filling_keeps_the_session_true,
    law_opening_keeps_the_session_true, stream_sound, tidy,
};
use crate::query::{CountingView, GettingView, LocatingView, ResolvingView};
use crate::session::SessionView;
use crate::soundness::same_answer;
use crate::stream::StreamView;

verus! {

/// Something that a session is asked, of a path at a depth or of a stream.
pub enum Question {
    Lookup(KeyView, u32),
    Resolve(KeyView, u32),
    Get(KeyView, u32),
    Count(KeyView, u32),
    Open(StreamView),
    Fill(StreamView),
    BreakOff(StreamView, WindowView),
}

/// The session after a question is answered from `doc`.
pub open spec fn after(doc: Seq<u8>, s: SessionView, q: Question) -> SessionView {
    match q {
        Question::Lookup(key, depth) => LocatingView::begun(s, key, depth).answer(
            doc,
            s.asked(key.0, key.1),
        ).1,
        Question::Resolve(key, depth) => (ResolvingView {
            locating: LocatingView::begun(s, key, depth),
            extent: None,
        }).answer(doc, s.asked(key.0, key.1)).1,
        Question::Get(key, depth) => (GettingView {
            resolving: ResolvingView {
                locating: LocatingView::begun(s, key, depth),
                extent: None,
            },
            found: None,
        }).answer(doc, s.asked(key.0, key.1)).1,
        Question::Count(key, depth) => match s.cached_child_count(key) {
            Some(_) => s,
            None => CountingView::Locating(LocatingView::begun(s, key, depth)).answer(
                doc,
                s.asked(key.0, key.1),
            ).1,
        },
        Question::Open(v) => v.opened(doc, s).2,
        Question::Fill(v) => v.filled(doc, s).2,
        Question::BreakOff(v, w) => v.broken_off(s, w),
    }
}

/// A question can be asked: a path is no longer than a machine word tells, and a stream
/// stands among the children of its container, whose brackets match.
pub open spec fn can_be_asked(doc: Seq<u8>, s: SessionView, q: Question) -> bool {
    match q {
        Question::Lookup(key, _) | Question::Resolve(key, _) | Question::Get(key, _)
        | Question::Count(key, _) => key.1.len() <= usize::MAX,
        Question::Open(v) => {
            &&& v.key.1.len() <= usize::MAX
            &&& v.opening is Fresh
            &&& v.cursor is None
            &&& v.yielded == 0
        },
        Question::Fill(v) => {
            &&& stream_sound(doc, s, v)
            &&& v.batch is None
            &&& v.cursor matches Some(cursor) ==> tidy(doc, cursor.kind, v.base->0 as int)
        },
        Question::BreakOff(v, w) => {
            &&& stream_sound(doc, s, v)
            &&& v.cursor matches Some(cursor) ==> tidy(doc, cursor.kind, v.base->0 as int)
        },
    }
}

/// The session after a history of questions.
pub open spec fn after_all(doc: Seq<u8>, s: SessionView, history: Seq<Question>) -> SessionView
    decreases history.len(),
{
    if history.len() == 0 {
        s
    } else {
        after_all(doc, after(doc, s, history[0]), history.drop_first())
    }
}

/// Each question of a history can be asked when its turn comes.
pub open spec fn history_fits(doc: Seq<u8>, s: SessionView, history: Seq<Question>) -> bool
    decreases history.len(),
{
    history.len() > 0 ==> {
        &&& can_be_asked(doc, s, history[0])
        &&& history_fits(doc, after(doc, s, history[0]), history.drop_first())
    }
}

/// A question leaves the session true, and its limit on tables as it is.
proof fn lemma_after(doc: Seq<u8>, s: SessionView, q: Question)
    requires
        doc.len() <= usize::MAX,
        doc.len() <= u64::MAX,
        session_sound(doc, s),
        can_be_asked(doc, s, q),
    ensures
        session_sound(doc, after(doc, s, q)),
        after(doc, s, q).index.cap == s.index.cap,
{
    match q {
        Question::Lookup(key, depth) => {
            law_lookup_answers_from_the_document(doc, s, key, depth);
        },
        Question::Resolve(key, depth) => {
            law_lookup_answers_from_the_document(doc, s, key, depth);
            law_resolve_answers_from_the_document(doc, s, key, depth);
        },
        Question::Get(key, depth) => {
            law_lookup_answers_from_the_document(doc, s, key, depth);
            law_get_answers_from_the_document(doc, s, key, depth);
        },
        Question::Count(key, depth) => {
            law_lookup_answers_from_the_document(doc, s, key, depth);
            law_count_answers_from_the_document(doc, s, key, depth);
        },
        Question::Open(v) => {
            law_lookup_answers_from_the_document(doc, s, v.key, v.base_depth);
            law_opening_keeps_the_session_true(doc, s, v);
        },
        Question::Fill(v) => {
            law_filling_keeps_the_session_true(doc, s, v);
        },
        Question::BreakOff(v, w) => {
            law_breaking_off_keeps_the_session_true(doc, s, v, w);
        },
    }
}

/// Any history of questions leaves the session true.
pub proof fn law_a_history_keeps_the_session_true(
    doc: Seq<u8>,
    s: SessionView,
    history: Seq<Question>,
)
    requires
        doc.len() <= usize::MAX,
        doc.len() <= u64::MAX,
        session_sound(doc, s),
        history_fits(doc, s, history),
    ensures
        session_sound(doc, after_all(doc, s, history)),
        after_all(doc, s, history).index.cap == s.index.cap,
    decreases history.len(),
{
    if history.len() > 0 {
        lemma_after(doc, s, history[0]);
        law_a_history_keeps_the_session_true(
            doc,
            after(doc, s, history[0]),
            history.drop_first(),
        );
    }
}

/// The history of a session changes no answer: after any questions, and with any
/// limits, a lookup leads where it leads in a fresh session without an index. The index
/// changes which chunks are read, never the answer.
pub proof fn law_a_history_changes_no_answer(
    doc: Seq<u8>,
    new: SessionView,
    history: Seq<Question>,
    bare: SessionView,
    key: KeyView,
    depth: u32,
)
    requires
        doc.len() <= usize::MAX,
        doc.len() <= u64::MAX,
        new.index.nodes.len() == 0,
        history_fits(doc, new, history),
        bare.index.nodes.len() == 0,
        bare.index.budget == 0,
        key.1.len() <= usize::MAX,
        (new.index.cap > 0) == (bare.index.cap > 0) || path_is_text(doc, key.1, 0, key.0),
    ensures
        ({
            let s = after_all(doc, new, history);
            same_answer(
                LocatingView::begun(s, key, depth).answer(doc, s.asked(key.0, key.1)).0,
                LocatingView::begun(bare, key, depth).answer(doc, bare.asked(key.0, key.1)).0,
            )
        }),
{
    law_fresh_session_is_sound(doc, new);
    law_fresh_session_is_sound(doc, bare);
    law_a_history_keeps_the_session_true(doc, new, history);
    law_sessions_answer_alike(doc, after_all(doc, new, history), bare, key, depth);
}

} // verus!
