//! The Markdown structure of a note, as the indexer needs it: headings (with
//! GitHub-style slugs), the byte ranges of code (where `[[links]]` don't
//! count), and the GFM task-list markers. Parsing itself is pulldown-cmark's;
//! this module folds its event stream into that structure.
use crate::text::{char_is_alphanumeric, char_lowercase, char_to_lowercase, chars_of, is_alphanumeric, push_str, trim, trim_str};
use pulldown_cmark::Event::{Code, End, Start, TaskListMarker, Text};
use pulldown_cmark::Tag::{CodeBlock, Heading};
use pulldown_cmark::TagEnd::{CodeBlock as CodeBlockEnd, Heading as HeadingEnd};
use pulldown_cmark::{Options, Parser};
use vstd::prelude::*;

verus! {

/// Event kinds, as the first component of a [`MdEvent`].
pub const KIND_OTHER: u8 = 0;
pub const KIND_HEADING_START: u8 = 1;
pub const KIND_HEADING_END: u8 = 2;
pub const KIND_CODE_BLOCK_START: u8 = 3;
pub const KIND_CODE_BLOCK_END: u8 = 4;
pub const KIND_CODE: u8 = 5;
pub const KIND_TEXT: u8 = 6;
pub const KIND_TASK_MARKER: u8 = 7;

/// The parser options: GFM tables (bit 1), footnotes (bit 2), strikethrough
/// (bit 3), task lists (bit 4) and math (bit 10).
pub const MD_OPTIONS: u32 = 1054;

/// One parser event: `(kind, detail, byte start, byte end, text)`. The
/// detail is the level (1-6) of a heading start and 1 for a checked task
/// marker (0 otherwise); the text is that of code and text events.
pub type MdEvent = (u8, u8, usize, usize, String);

/// The event stream pulldown-cmark produces for a note (GFM tables,
/// footnotes, strikethrough, task lists and math enabled), one entry per event
/// with its source byte range.
pub uninterp spec fn markdown_events(src: Seq<char>) -> Seq<(u8, u8, usize, usize, Seq<char>)>;

/// Runs pulldown-cmark's `Parser::new_ext(..).into_offset_iter()` over `src`
/// and converts each event to a plain tuple. The contract claims only that the
/// result is the (named) event stream of `src`.
#[verifier::external_body]
pub(crate) fn markdown_events_of(src: &str) -> (v: Vec<MdEvent>)
    ensures
        v.deep_view() == markdown_events(src@),
{
    let mut out = vec![];
    for (ev, r) in Parser::new_ext(src, Options::from_bits_truncate(MD_OPTIONS)).into_offset_iter() {
        let t = match &ev { Code(s) | Text(s) => s.to_string(), _ => String::new() };
        let (k, d) = match ev {
            Start(Heading { level, .. }) => (KIND_HEADING_START, level as u8),
            End(HeadingEnd(_)) => (KIND_HEADING_END, 0),
            Start(CodeBlock(_)) => (KIND_CODE_BLOCK_START, 0),
            End(CodeBlockEnd) => (KIND_CODE_BLOCK_END, 0),
            Code(_) => (KIND_CODE, 0), Text(_) => (KIND_TEXT, 0),
            TaskListMarker(b) => (KIND_TASK_MARKER, b as u8),
            _ => (KIND_OTHER, 0),
        };
        out.push((k, d, r.start, r.end, t))
    }
    out
}

/// A heading: its trimmed text, slug, and level (1-6).
pub struct HeadingV {
    pub text: Seq<char>,
    pub slug: Seq<char>,
    pub level: u8,
}

/// The structure gathered from the event stream so far.
pub struct MdState {
    pub headings: Seq<HeadingV>,
    /// Byte ranges `[start, end)` of code spans, code blocks and text inside
    /// code blocks.
    pub code: Seq<(usize, usize)>,
    /// Byte offset and checked state of each task-list marker.
    pub markers: Seq<(usize, bool)>,
    /// The heading being collected: its level and the text so far.
    pub current: Option<(u8, Seq<char>)>,
    pub depth: nat,
}

/// What the slug keeps of one character: alphanumerics lowercased; space,
/// hyphen and underscore become a hyphen; everything else is dropped.
pub open spec fn slug_piece(c: char) -> Seq<char> {
    if char_is_alphanumeric(c) {
        char_lowercase(c)
    } else if c == ' ' || c == '-' || c == '_' {
        seq!['-']
    } else {
        Seq::empty()
    }
}

pub open spec fn slug_from(t: Seq<char>, i: int) -> Seq<char>
    decreases t.len() - i,
{
    if i < 0 || i >= t.len() {
        Seq::empty()
    } else {
        slug_piece(t[i]) + slug_from(t, i + 1)
    }
}

/// GitHub-style heading slug of `text`.
pub open spec fn slugify_spec(text: Seq<char>) -> Seq<char> {
    slug_from(trim(text), 0)
}

/// GitHub-style heading slug: lowercase, drop punctuation other than spaces,
/// hyphens, and underscores, then map spaces to hyphens.
pub fn slugify(text: &str) -> (r: String)
    ensures
        r@ == slugify_spec(text@),
{
    let t = chars_of(&trim_str(text));
    let mut out = String::new();
    let mut i: usize = 0;
    while i < t.len()
        invariant
            i <= t.len(),
            t@ == trim(text@),
            out@ + slug_from(t@, i as int) == slugify_spec(text@),
        decreases t.len() - i,
    {
        let c = t[i];
        let ghost before = out@;
        if is_alphanumeric(c) {
            let low = char_to_lowercase(c);
            push_str(&mut out, low.as_str());
        } else if c == ' ' || c == '-' || c == '_' {
            out.push('-');
        }
        assert(out@ == before + slug_piece(t@[i as int]));
        assert(slug_from(t@, i as int) == slug_piece(t@[i as int]) + slug_from(t@, i + 1));
        assert(before + slug_from(t@, i as int) =~= out@ + slug_from(t@, i + 1));
        i += 1;
    }
    assert(slug_from(t@, i as int) =~= Seq::<char>::empty());
    assert(out@ =~= out@ + Seq::<char>::empty());
    out
}

pub open spec fn md_init() -> MdState {
    MdState {
        headings: Seq::empty(),
        code: Seq::empty(),
        markers: Seq::empty(),
        current: None,
        depth: 0,
    }
}

/// The effect of one event on the gathered structure.
pub open spec fn md_step(st: MdState, e: (u8, u8, usize, usize, Seq<char>)) -> MdState {
    let (kind, detail, start, end, text) = e;
    if kind == KIND_TASK_MARKER {
        MdState { markers: st.markers.push((start, detail == 1)), ..st }
    } else if kind == KIND_HEADING_START {
        MdState { current: Some((detail, Seq::empty())), ..st }
    } else if kind == KIND_HEADING_END {
        match st.current {
            Some((l, t)) => MdState {
                headings: st.headings.push(
                    HeadingV { text: trim(t), slug: slugify_spec(trim(t)), level: l },
                ),
                current: None,
                ..st
            },
            None => st,
        }
    } else if kind == KIND_CODE_BLOCK_START {
        MdState { depth: st.depth + 1, code: st.code.push((start, end)), ..st }
    } else if kind == KIND_CODE_BLOCK_END {
        MdState { depth: if st.depth > 0 { (st.depth - 1) as nat } else { 0 }, ..st }
    } else if kind == KIND_CODE {
        MdState {
            code: st.code.push((start, end)),
            current: match st.current {
                Some((l, t)) => Some((l, t + text)),
                None => None,
            },
            ..st
        }
    } else if kind == KIND_TEXT {
        MdState {
            code: if st.depth > 0 { st.code.push((start, end)) } else { st.code },
            current: match st.current {
                Some((l, t)) => Some((l, t + text)),
                None => None,
            },
            ..st
        }
    } else {
        st
    }
}

/// The structure gathered from the first `n` events.
pub open spec fn md_fold(ev: Seq<(u8, u8, usize, usize, Seq<char>)>, n: int) -> MdState
    decreases n,
{
    if n <= 0 {
        md_init()
    } else {
        md_step(md_fold(ev, n - 1), ev[n - 1])
    }
}

pub open spec fn md_structure(ev: Seq<(u8, u8, usize, usize, Seq<char>)>) -> MdState {
    md_fold(ev, ev.len() as int)
}

/// The headings, code ranges and task markers of a note.
pub struct NoteStructure {
    pub headings: Vec<crate::index::Heading>,
    pub code: Vec<(usize, usize)>,
    pub markers: Vec<(usize, bool)>,
}

/// Fold an event stream into the note's headings, code ranges and task
/// markers. Headings collect the text and inline code inside them; code
/// ranges are those of code spans, code blocks and text within code blocks.
pub fn note_structure(events: &Vec<MdEvent>) -> (r: NoteStructure)
    ensures
        r.headings.deep_view() == md_structure(events.deep_view()).headings,
        r.code@ == md_structure(events.deep_view()).code,
        r.markers@ == md_structure(events.deep_view()).markers,
{
    let ghost ev = events.deep_view();
    let mut headings: Vec<crate::index::Heading> = Vec::new();
    let mut code: Vec<(usize, usize)> = Vec::new();
    let mut markers: Vec<(usize, bool)> = Vec::new();
    let mut in_heading = false;
    let mut cur_level: u8 = 0;
    let mut cur_text = String::new();
    let mut depth: usize = 0;
    let mut i: usize = 0;
    while i < events.len()
        invariant
            i <= events.len(),
            ev == events.deep_view(),
            depth <= i,
            ({
                let st = md_fold(ev, i as int);
                &&& headings.deep_view() == st.headings
                &&& code@ == st.code
                &&& markers@ == st.markers
                &&& st.depth == depth
                &&& (in_heading <==> st.current is Some)
                &&& (in_heading ==> st.current == Some((cur_level, cur_text@)))
            }),
        decreases events.len() - i,
    {
        let e = &events[i];
        let kind = e.0;
        assert(ev[i as int] == events@[i as int].deep_view());
        let ghost st = md_fold(ev, i as int);
        if kind == KIND_TASK_MARKER {
            markers.push((e.2, e.1 == 1));
        } else if kind == KIND_HEADING_START {
            in_heading = true;
            cur_level = e.1;
            cur_text = String::new();
        } else if kind == KIND_HEADING_END {
            if in_heading {
                let text = trim_str(cur_text.as_str());
                let slug = slugify(text.as_str());
                assert(slugify_spec(text@) == slugify_spec(trim(cur_text@)));
                let ghost hv = headings.deep_view();
                headings.push(crate::index::Heading { text, slug, level: cur_level });
                assert(headings.deep_view() =~= hv.push(
                    HeadingV { text: trim(cur_text@), slug: slugify_spec(trim(cur_text@)), level: cur_level },
                ));
                in_heading = false;
            }
        } else if kind == KIND_CODE_BLOCK_START {
            depth += 1;
            code.push((e.2, e.3));
        } else if kind == KIND_CODE_BLOCK_END {
            if depth > 0 {
                depth -= 1;
            }
        } else if kind == KIND_CODE {
            code.push((e.2, e.3));
            if in_heading {
                push_str(&mut cur_text, e.4.as_str());
            }
        } else if kind == KIND_TEXT {
            if depth > 0 {
                code.push((e.2, e.3));
            }
            if in_heading {
                push_str(&mut cur_text, e.4.as_str());
            }
        }
        i += 1;
    }
    NoteStructure { headings, code, markers }
}

} // verus!
