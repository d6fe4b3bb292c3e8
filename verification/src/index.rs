//! In-memory link index: notes, their headings, outgoing `[[wikilinks]]`
//! and checkbox tasks, with link resolution and backlink queries.
//!
//! Paths are keyed **vault-relative with forward slashes** (e.g.
//! `Projects/Plan.md`).
use crate::error::AppError;
use crate::markdown::HeadingV;
use crate::text::{
    after_last, after_last_exec, chars_of, copy_opt_string, copy_string, copy_strings, count_ch,
    count_ch_exec, ends_with, lex_lt, lex_lt_exec,
    occurs_at_exec, slice_of, str_lowercase, string_from_vec, to_lowercase, trim, trim_ch,
    trim_ch_exec, trim_vec,
};
use vstd::prelude::*;

verus! {

/// A heading within a note, with its GitHub-style slug for `#Heading` links.
#[derive(Debug, Clone, PartialEq, Eq)]
pub struct Heading {
    pub text: String,
    pub slug: String,
    pub level: u8,
}

impl DeepView for Heading {
    type V = HeadingV;

    open spec fn deep_view(&self) -> HeadingV {
        HeadingV { text: self.text@, slug: self.slug@, level: self.level }
    }
}

} // verus!

verus! {

/// One outgoing `[[wikilink]]` occurrence, as the index sees it.
pub struct LinkRefV {
    pub target: Seq<char>,
    pub heading: Option<Seq<char>>,
    pub line: usize,
    pub snippet: Seq<char>,
}

/// One outgoing `[[wikilink]]` occurrence. `target` is the note part (before any
/// `#heading` or `|alias`); `heading` is the optional `#` fragment. `snippet` is
/// the trimmed source line.
#[derive(Debug, Clone, PartialEq, Eq)]
pub struct LinkRef {
    pub target: String,
    pub heading: Option<String>,
    pub line: usize,
    pub snippet: String,
}

impl DeepView for LinkRef {
    type V = LinkRefV;

    open spec fn deep_view(&self) -> LinkRefV {
        LinkRefV {
            target: self.target@,
            heading: match self.heading {
                Some(h) => Some(h@),
                None => None,
            },
            line: self.line,
            snippet: self.snippet@,
        }
    }
}

/// One checkbox task, as the index sees it.
pub struct TaskV {
    pub text: Seq<char>,
    pub done: bool,
    pub tags: Seq<Seq<char>>,
    pub due: Option<Seq<char>>,
    pub line: usize,
}

/// One Markdown checkbox task (`- [ ]` / `- [x]`), with its inline metadata.
/// `text` is the full task body after the checkbox marker, trimmed; `tags` are
/// inline `#tags` (without the `#`); `due` is an optional inline
/// `📅 YYYY-MM-DD`; `line` is the 1-based line in the source file.
#[derive(Debug, Clone, PartialEq, Eq)]
pub struct Task {
    pub text: String,
    pub done: bool,
    pub tags: Vec<String>,
    pub due: Option<String>,
    pub line: usize,
}

impl DeepView for Task {
    type V = TaskV;

    open spec fn deep_view(&self) -> TaskV {
        TaskV {
            text: self.text@,
            done: self.done,
            tags: self.tags.deep_view(),
            due: match self.due {
                Some(d) => Some(d@),
                None => None,
            },
            line: self.line,
        }
    }
}

} // verus!

verus! {

// ---------------------------------------------------------------- paths

pub open spec fn md_suffix() -> Seq<char> {
    seq!['.', 'm', 'd']
}

/// Filename (last `/`-separated segment) of a vault-relative path.
pub open spec fn file_name_spec(p: Seq<char>) -> Seq<char> {
    p.subrange(after_last(p, '/', p.len() as int), p.len() as int)
}

/// Filename stem (no directory, no `.md`).
pub open spec fn stem_spec(p: Seq<char>) -> Seq<char> {
    let f = file_name_spec(p);
    if ends_with(f, md_suffix()) {
        f.subrange(0, f.len() - 3)
    } else {
        f
    }
}

/// Directory portion of a vault-relative path (empty for a top-level note).
pub open spec fn dir_spec(p: Seq<char>) -> Seq<char> {
    let a = after_last(p, '/', p.len() as int);
    if a == 0 {
        Seq::empty()
    } else {
        p.subrange(0, a - 1)
    }
}

fn md_suffix_vec() -> (r: Vec<char>)
    ensures
        r@ == md_suffix(),
{
    let mut r = Vec::new();
    r.push('.');
    r.push('m');
    r.push('d');
    assert(r@ =~= md_suffix());
    r
}

/// Filename stem (no directory, no `.md`).
pub fn stem_of(p: &Vec<char>) -> (r: Vec<char>)
    ensures
        r@ == stem_spec(p@),
{
    proof {
        crate::text::lemma_after_last_bounds(p@, '/', p.len() as int);
    }
    let a = after_last_exec(p, '/', p.len());
    let f = slice_of(p, a, p.len());
    let md = md_suffix_vec();
    if f.len() >= 3 && occurs_at_exec(&f, &md, f.len() - 3) {
        slice_of(&f, 0, f.len() - 3)
    } else {
        f
    }
}

/// Directory portion of a vault-relative path (empty for a top-level note).
pub fn dir_of(p: &Vec<char>) -> (r: Vec<char>)
    ensures
        r@ == dir_spec(p@),
{
    let a = after_last_exec(p, '/', p.len());
    if a == 0 {
        Vec::new()
    } else {
        slice_of(p, 0, a - 1)
    }
}

/// End of `s[..j]` once trailing `.md` suffixes are stripped.
pub open spec fn md_trim_end(s: Seq<char>, j: int) -> int
    decreases j,
{
    if 3 <= j <= s.len() && s.subrange(j - 3, j) == md_suffix() {
        md_trim_end(s, j - 3)
    } else {
        j
    }
}

/// End of the leading `./` prefixes of `s` from `a`.
pub open spec fn dot_slash_end(s: Seq<char>, a: int) -> int
    decreases s.len() - a,
{
    if 0 <= a && a + 2 <= s.len() && s[a] == '.' && s[a + 1] == '/' {
        dot_slash_end(s, a + 2)
    } else {
        a
    }
}

/// Tidy a raw `[[target]]` for resolution: trim, normalize separators, drop
/// leading `./`, and trim surrounding slashes.
pub open spec fn normalize_target_spec(t: Seq<char>) -> Seq<char> {
    let t1 = trim(t);
    let t2 = t1.map_values(|c: char| if c == '\\' { '/' } else { c });
    let t3 = t2.subrange(dot_slash_end(t2, 0), t2.len() as int);
    trim_ch(t3, '/')
}

/// The `.md` path a normalized target names exactly.
pub open spec fn with_md(t: Seq<char>) -> Seq<char> {
    if ends_with(t, md_suffix()) {
        t
    } else {
        t + md_suffix()
    }
}

/// The bare name a normalized target resolves by: its last segment, with
/// trailing `.md`s removed.
pub open spec fn target_name(t: Seq<char>) -> Seq<char> {
    let p = t.subrange(0, md_trim_end(t, t.len() as int));
    p.subrange(after_last(p, '/', p.len() as int), p.len() as int)
}

pub proof fn lemma_md_trim_end_bounds(s: Seq<char>, j: int)
    requires
        0 <= j <= s.len(),
    ensures
        0 <= md_trim_end(s, j) <= j,
    decreases j,
{
    if 3 <= j && s.subrange(j - 3, j) == md_suffix() {
        lemma_md_trim_end_bounds(s, j - 3);
    }
}

fn normalize_target(target: &str) -> (r: Vec<char>)
    ensures
        r@ == normalize_target_spec(target@),
{
    let t = chars_of(target);
    let t1 = trim_vec(&t);
    let mut t2: Vec<char> = Vec::new();
    let mut i: usize = 0;
    while i < t1.len()
        invariant
            i <= t1.len(),
            t2@ == t1@.subrange(0, i as int).map_values(|c: char| if c == '\\' { '/' } else { c }),
        decreases t1.len() - i,
    {
        let c = t1[i];
        t2.push(if c == '\\' { '/' } else { c });
        i += 1;
        assert(t2@ =~= t1@.subrange(0, i as int).map_values(|c: char| if c == '\\' { '/' } else { c }));
    }
    assert(t1@.subrange(0, t1.len() as int) =~= t1@);
    let mut a: usize = 0;
    while a < t2.len() && t2.len() - a >= 2 && t2[a] == '.' && t2[a + 1] == '/'
        invariant
            a <= t2.len(),
            dot_slash_end(t2@, a as int) == dot_slash_end(t2@, 0),
        decreases t2.len() - a,
    {
        a += 2;
    }
    let t3 = slice_of(&t2, a, t2.len());
    trim_ch_exec(&t3, '/')
}

// ---------------------------------------------------------------- notes

/// Everything the index knows about one note.
pub struct NoteEntryV {
    pub rel_path: Seq<char>,
    pub title: Seq<char>,
    pub headings: Seq<HeadingV>,
    pub outgoing: Seq<LinkRefV>,
    pub tasks: Seq<TaskV>,
    pub classification: Option<Seq<char>>,
    pub mtime: i64,
    pub size: u64,
}

/// Everything the index knows about one note.
#[derive(Debug, Clone)]
pub struct NoteEntry {
    /// Vault-relative, forward-slash path (the index key).
    pub rel_path: String,
    /// Display title — the filename stem.
    pub title: String,
    pub headings: Vec<Heading>,
    pub outgoing: Vec<LinkRef>,
    /// Checkbox tasks in this note.
    pub tasks: Vec<Task>,
    /// The frontmatter `classification:` value, if any. Used by the
    /// `classification is <Label>` query filter; not a real Purview label.
    pub classification: Option<String>,
    /// Modification time (millis since epoch) and size, for the cache's
    /// skip-if-unchanged check.
    pub mtime: i64,
    pub size: u64,
}

impl DeepView for NoteEntry {
    type V = NoteEntryV;

    open spec fn deep_view(&self) -> NoteEntryV {
        NoteEntryV {
            rel_path: self.rel_path@,
            title: self.title@,
            headings: self.headings.deep_view(),
            outgoing: self.outgoing.deep_view(),
            tasks: self.tasks.deep_view(),
            classification: self.classification.deep_view(),
            mtime: self.mtime,
            size: self.size,
        }
    }
}

/// The entry `build_entry` makes for the note at `rel`.
pub open spec fn entry_spec(rel: Seq<char>, mtime: i64, size: u64, content: Seq<char>) -> NoteEntryV {
    let parsed = crate::parse::parse_note_spec(content, crate::markdown::markdown_events(content));
    NoteEntryV {
        rel_path: rel,
        title: stem_spec(rel),
        headings: parsed.0,
        outgoing: parsed.1,
        tasks: parsed.2,
        classification: crate::parse::frontmatter_classification_spec(content),
        mtime,
        size,
    }
}

/// Parse `content` and assemble a [`NoteEntry`] for the note at `rel`.
pub fn build_entry(rel: String, mtime: i64, size: u64, content: &str) -> (r: NoteEntry)
    requires
        content@.len() < usize::MAX,
    ensures
        r.deep_view() == entry_spec(rel@, mtime, size, content@),
{
    let (headings, outgoing, tasks) = crate::parse::parse_note(content);
    let classification = crate::parse::parse_frontmatter_classification(content);
    let rv = chars_of(rel.as_str());
    let title = string_from_vec(&stem_of(&rv));
    NoteEntry { rel_path: rel, title, headings, outgoing, tasks, classification, mtime, size }
}

} // verus!

verus! {

// ---------------------------------------------------------------- the index

/// The notes of `s` keyed by path.
pub open spec fn entries_map(s: Seq<NoteEntryV>) -> Map<Seq<char>, NoteEntryV> {
    Map::new(
        |k: Seq<char>| exists|i: int| 0 <= i < s.len() && #[trigger] s[i].rel_path == k,
        |k: Seq<char>| s[choose|i: int| 0 <= i < s.len() && #[trigger] s[i].rel_path == k],
    )
}

/// No two notes share a path.
pub open spec fn unique_keys(s: Seq<NoteEntryV>) -> bool {
    forall|i: int, j: int|
        0 <= i < s.len() && 0 <= j < s.len() && i != j ==> #[trigger] s[i].rel_path
            != #[trigger] s[j].rel_path
}

pub proof fn lemma_entries_lookup(s: Seq<NoteEntryV>, i: int)
    requires
        unique_keys(s),
        0 <= i < s.len(),
    ensures
        entries_map(s).dom().contains(s[i].rel_path),
        entries_map(s)[s[i].rel_path] == s[i],
{
    let k = s[i].rel_path;
    assert(entries_map(s).dom().contains(k));
    let j = choose|j: int| 0 <= j < s.len() && #[trigger] s[j].rel_path == k;
    assert(j == i);
}

/// The in-memory index of every note in the vault, keyed by vault-relative
/// path.
#[derive(Debug, Default)]
pub struct Index {
    notes: Vec<NoteEntry>,
}

impl Index {
    /// The notes, in the index's internal order.
    pub closed spec fn entries_seq(&self) -> Seq<NoteEntryV> {
        self.notes.deep_view()
    }

    /// Well-formedness: one entry per path.
    pub open spec fn wf(&self) -> bool {
        unique_keys(self.entries_seq())
    }
}

impl View for Index {
    type V = Map<Seq<char>, NoteEntryV>;

    open spec fn view(&self) -> Map<Seq<char>, NoteEntryV> {
        entries_map(self.entries_seq())
    }
}

impl Index {
    pub fn new() -> (r: Self)
        ensures
            r.wf(),
            r@ == Map::<Seq<char>, NoteEntryV>::empty(),
    {
        let r = Index { notes: Vec::new() };
        assert(r@ =~= Map::<Seq<char>, NoteEntryV>::empty());
        r
    }

    /// Position of the note at `rel`, if any.
    fn find(&self, rel: &str) -> (r: Option<usize>)
        requires
            self.wf(),
        ensures
            match r {
                Some(i) => i < self.entries_seq().len() && self.entries_seq()[i as int].rel_path
                    == rel@,
                None => !self@.dom().contains(rel@),
            },
    {
        let mut i: usize = 0;
        while i < self.notes.len()
            invariant
                i <= self.notes.len(),
                self.entries_seq() == self.notes.deep_view(),
                forall|j: int| 0 <= j < i ==> self.entries_seq()[j].rel_path != rel@,
            decreases self.notes.len() - i,
        {
            if crate::text::str_eq(self.notes[i].rel_path.as_str(), rel) {
                return Some(i);
            }
            i += 1;
        }
        None
    }

    pub fn len(&self) -> (r: usize)
        requires
            self.wf(),
        ensures
            self@.dom().finite(),
            r == self@.dom().len(),
    {
        proof {
            self.lemma_dom_len();
        }
        self.notes.len()
    }

    pub proof fn lemma_dom_len(&self)
        requires
            self.wf(),
        ensures
            self@.dom().finite(),
            self@.dom().len() == self.entries_seq().len(),
    {
        let s = self.entries_seq();
        let keys = s.map_values(|e: NoteEntryV| e.rel_path);
        assert(self@.dom() =~= keys.to_set()) by {
            assert forall|k: Seq<char>| self@.dom().contains(k) implies keys.to_set().contains(k) by {
                let i = choose|i: int| 0 <= i < s.len() && #[trigger] s[i].rel_path == k;
                assert(keys[i] == k);
            }
            assert forall|k: Seq<char>| keys.to_set().contains(k) implies self@.dom().contains(k) by {
                let i = choose|i: int| 0 <= i < keys.len() && keys[i] == k;
                assert(s[i].rel_path == k);
            }
        }
        assert(keys.no_duplicates()) by {
            assert forall|i: int, j: int|
                0 <= i < keys.len() && 0 <= j < keys.len() && i != j implies keys[i] != keys[j] by {
                assert(s[i].rel_path != s[j].rel_path);
            }
        }
        keys.unique_seq_to_set();
        vstd::seq_lib::seq_to_set_is_finite(keys);
    }

    pub fn is_empty(&self) -> (r: bool)
        requires
            self.wf(),
        ensures
            r == (self@.dom().len() == 0),
    {
        self.len() == 0
    }

    /// The note at `rel_path`, if indexed.
    pub fn get(&self, rel_path: &str) -> (r: Option<&NoteEntry>)
        requires
            self.wf(),
        ensures
            match r {
                Some(e) => self@.dom().contains(rel_path@) && e.deep_view() == self@[rel_path@],
                None => !self@.dom().contains(rel_path@),
            },
    {
        match self.find(rel_path) {
            Some(i) => {
                proof {
                    lemma_entries_lookup(self.entries_seq(), i as int);
                }
                Some(&self.notes[i])
            },
            None => None,
        }
    }

    /// All notes, for autocomplete / the link-target snapshot.
    pub fn entries(&self) -> (r: &Vec<NoteEntry>)
        requires
            self.wf(),
        ensures
            r.deep_view() == self.entries_seq(),
            unique_keys(r.deep_view()),
            self@ == entries_map(r.deep_view()),
    {
        &self.notes
    }

    /// Insert or replace a note.
    pub fn insert(&mut self, entry: NoteEntry)
        requires
            old(self).wf(),
        ensures
            final(self).wf(),
            final(self)@ == old(self)@.insert(entry.rel_path@, entry.deep_view()),
    {
        let ghost ev = entry.deep_view();
        let ghost s0 = self.entries_seq();
        let ghost k = entry.rel_path@;
        match self.find(entry.rel_path.as_str()) {
            Some(p) => {
                self.notes[p] = entry;
                proof {
                    let s1 = self.entries_seq();
                    assert(s1 =~= s0.update(p as int, ev));
                    assert(entries_map(s1) =~= entries_map(s0).insert(k, ev)) by {
                        assert forall|kk: Seq<char>|
                            entries_map(s1).dom().contains(kk) <==> entries_map(s0).insert(
                                k,
                                ev,
                            ).dom().contains(kk) by {
                            if entries_map(s1).dom().contains(kk) {
                                let i = choose|i: int| 0 <= i < s1.len() && #[trigger] s1[i].rel_path == kk;
                                if i != p {
                                    assert(s0[i].rel_path == kk);
                                }
                            }
                            if entries_map(s0).dom().contains(kk) && kk != k {
                                let i = choose|i: int| 0 <= i < s0.len() && #[trigger] s0[i].rel_path == kk;
                                assert(s1[i].rel_path == kk);
                            }
                            if kk == k {
                                assert(s1[p as int].rel_path == kk);
                            }
                        }
                        assert forall|kk: Seq<char>| #[trigger]
                            entries_map(s1).dom().contains(kk) implies entries_map(s1)[kk]
                            == entries_map(s0).insert(k, ev)[kk] by {
                            let i = choose|i: int| 0 <= i < s1.len() && #[trigger] s1[i].rel_path == kk;
                            lemma_entries_lookup(s1, i);
                            if i == p {
                            } else {
                                lemma_entries_lookup(s0, i);
                            }
                        }
                    }
                }
            },
            None => {
                self.notes.push(entry);
                proof {
                    let s1 = self.entries_seq();
                    assert(s1 =~= s0.push(ev));
                    assert(entries_map(s1) =~= entries_map(s0).insert(k, ev)) by {
                        assert forall|kk: Seq<char>|
                            entries_map(s1).dom().contains(kk) <==> entries_map(s0).insert(
                                k,
                                ev,
                            ).dom().contains(kk) by {
                            if entries_map(s1).dom().contains(kk) {
                                let i = choose|i: int| 0 <= i < s1.len() && #[trigger] s1[i].rel_path == kk;
                                if i < s0.len() {
                                    assert(s0[i].rel_path == kk);
                                }
                            }
                            if entries_map(s0).dom().contains(kk) {
                                let i = choose|i: int| 0 <= i < s0.len() && #[trigger] s0[i].rel_path == kk;
                                assert(s1[i].rel_path == kk);
                            }
                            if kk == k {
                                assert(s1[s0.len() as int].rel_path == kk);
                            }
                        }
                        assert forall|kk: Seq<char>| #[trigger]
                            entries_map(s1).dom().contains(kk) implies entries_map(s1)[kk]
                            == entries_map(s0).insert(k, ev)[kk] by {
                            let i = choose|i: int| 0 <= i < s1.len() && #[trigger] s1[i].rel_path == kk;
                            lemma_entries_lookup(s1, i);
                            if i < s0.len() {
                                lemma_entries_lookup(s0, i);
                            }
                        }
                    }
                }
            },
        }
    }

    /// Remove a note (e.g. on delete).
    pub fn remove(&mut self, rel_path: &str)
        requires
            old(self).wf(),
        ensures
            final(self).wf(),
            final(self)@ == old(self)@.remove(rel_path@),
    {
        let ghost s0 = self.entries_seq();
        let ghost k = rel_path@;
        match self.find(rel_path) {
            Some(p) => {
                self.notes.remove(p);
                proof {
                    let s1 = self.entries_seq();
                    assert(s1 =~= s0.remove(p as int));
                    assert forall|i: int, j: int|
                        0 <= i < s1.len() && 0 <= j < s1.len() && i != j implies #[trigger] s1[i].rel_path
                            != #[trigger] s1[j].rel_path by {
                        let i0 = if i < p { i } else { i + 1 };
                        let j0 = if j < p { j } else { j + 1 };
                        assert(s1[i] == s0[i0] && s1[j] == s0[j0]);
                    }
                    assert(entries_map(s1) =~= entries_map(s0).remove(k)) by {
                        assert forall|kk: Seq<char>|
                            entries_map(s1).dom().contains(kk) <==> entries_map(s0).remove(
                                k,
                            ).dom().contains(kk) by {
                            if entries_map(s1).dom().contains(kk) {
                                let i = choose|i: int| 0 <= i < s1.len() && #[trigger] s1[i].rel_path == kk;
                                let i0 = if i < p { i } else { i + 1 };
                                assert(s0[i0].rel_path == kk);
                                assert(i0 != p);
                            }
                            if entries_map(s0).dom().contains(kk) && kk != k {
                                let i = choose|i: int| 0 <= i < s0.len() && #[trigger] s0[i].rel_path == kk;
                                assert(i != p);
                                let i1 = if i < p { i } else { i - 1 };
                                assert(s1[i1].rel_path == kk);
                            }
                        }
                        assert forall|kk: Seq<char>| #[trigger]
                            entries_map(s1).dom().contains(kk) implies entries_map(s1)[kk]
                            == entries_map(s0).remove(k)[kk] by {
                            let i = choose|i: int| 0 <= i < s1.len() && #[trigger] s1[i].rel_path == kk;
                            let i0 = if i < p { i } else { i + 1 };
                            lemma_entries_lookup(s1, i);
                            lemma_entries_lookup(s0, i0);
                        }
                    }
                }
            },
            None => {
                assert(entries_map(s0) =~= entries_map(s0).remove(k));
            },
        }
    }
}

} // verus!

verus! {

// ---------------------------------------------------------------- resolution

/// 0 for a note in the folder `from_dir`, else 1.
pub open spec fn folder_rank(p: Seq<char>, from_dir: Seq<char>) -> int {
    if dir_spec(p) == from_dir {
        0
    } else {
        1
    }
}

/// Candidate order for link resolution: same folder first, then fewest path
/// segments, then lexicographic by path.
pub open spec fn key_lt(a: Seq<char>, b: Seq<char>, from_dir: Seq<char>) -> bool {
    let ra = folder_rank(a, from_dir);
    let rb = folder_rank(b, from_dir);
    let sa = count_ch(a, '/', a.len() as int);
    let sb = count_ch(b, '/', b.len() as int);
    ra < rb || (ra == rb && (sa < sb || (sa == sb && lex_lt(a, b))))
}

pub proof fn lemma_key_lt_order(a: Seq<char>, b: Seq<char>, c: Seq<char>, d: Seq<char>)
    ensures
        key_lt(a, b, d) && key_lt(b, c, d) ==> key_lt(a, c, d),
        !key_lt(a, a, d),
        key_lt(a, b, d) ==> !key_lt(b, a, d),
        !key_lt(a, b, d) && !key_lt(b, a, d) ==> a == b,
{
    crate::text::lemma_lex_total(a, b);
    crate::text::lemma_lex_total(a, a);
    if lex_lt(a, b) && lex_lt(b, c) {
        crate::text::lemma_lex_trans(a, b, c);
    }
}

/// Is `k` a note whose stem matches the lowercase bare `name`?
pub open spec fn is_candidate(m: Map<Seq<char>, NoteEntryV>, name: Seq<char>, k: Seq<char>) -> bool {
    m.dom().contains(k) && str_lowercase(stem_spec(k)) == name
}

/// What `[[target]]`, written in the note at `from`, resolves to: an exact
/// path match wins; otherwise, among the notes whose filename stem matches the
/// target's last segment case-insensitively, the one in the same folder as
/// `from`, then with the fewest path segments, then first lexicographically.
pub open spec fn resolves_to(
    m: Map<Seq<char>, NoteEntryV>,
    target: Seq<char>,
    from: Seq<char>,
    r: Option<Seq<char>>,
) -> bool {
    let t = normalize_target_spec(target);
    let wm = with_md(t);
    let name = str_lowercase(target_name(t));
    if t.len() == 0 {
        r is None
    } else if m.dom().contains(wm) {
        r == Some(wm)
    } else {
        match r {
            None => forall|k: Seq<char>| !is_candidate(m, name, k),
            Some(p) => is_candidate(m, name, p) && forall|k: Seq<char>|
                is_candidate(m, name, k) ==> !key_lt(k, p, dir_spec(from)),
        }
    }
}

/// A link only ever resolves to a note that is in the index.
pub proof fn law_resolved_note_is_indexed(
    m: Map<Seq<char>, NoteEntryV>,
    target: Seq<char>,
    from: Seq<char>,
    p: Seq<char>,
)
    requires
        resolves_to(m, target, from, Some(p)),
    ensures
        m.dom().contains(p),
{
}

/// Resolution is a function: a target resolves to at most one answer.
pub proof fn lemma_resolve_unique(
    m: Map<Seq<char>, NoteEntryV>,
    target: Seq<char>,
    from: Seq<char>,
    r1: Option<Seq<char>>,
    r2: Option<Seq<char>>,
)
    requires
        resolves_to(m, target, from, r1),
        resolves_to(m, target, from, r2),
    ensures
        r1 == r2,
{
    let t = normalize_target_spec(target);
    let name = str_lowercase(target_name(t));
    if t.len() != 0 && !m.dom().contains(with_md(t)) {
        match (r1, r2) {
            (Some(p), Some(q)) => {
                lemma_key_lt_order(p, q, p, dir_spec(from));
            },
            (Some(p), None) => {
                assert(!is_candidate(m, name, p));
            },
            (None, Some(q)) => {
                assert(!is_candidate(m, name, q));
            },
            (None, None) => {},
        }
    }
}

fn vec_eq(a: &Vec<char>, b: &Vec<char>) -> (r: bool)
    ensures
        r == (a@ == b@),
{
    if a.len() != b.len() {
        return false;
    }
    let mut i: usize = 0;
    while i < a.len()
        invariant
            a.len() == b.len(),
            i <= a.len(),
            forall|k: int| 0 <= k < i ==> a@[k] == b@[k],
        decreases a.len() - i,
    {
        if a[i] != b[i] {
            return false;
        }
        i += 1;
    }
    assert(a@ =~= b@);
    true
}

fn key_lt_exec(a: &Vec<char>, b: &Vec<char>, from_dir: &Vec<char>) -> (r: bool)
    ensures
        r == key_lt(a@, b@, from_dir@),
{
    let ra: u8 = if vec_eq(&dir_of(a), from_dir) {
        0
    } else {
        1
    };
    let rb: u8 = if vec_eq(&dir_of(b), from_dir) {
        0
    } else {
        1
    };
    let sa = count_ch_exec(a, '/');
    let sb = count_ch_exec(b, '/');
    ra < rb || (ra == rb && (sa < sb || (sa == sb && lex_lt_exec(a, b))))
}

fn md_trim_end_exec(t: &Vec<char>) -> (r: usize)
    ensures
        r == md_trim_end(t@, t.len() as int),
        r <= t.len(),
{
    let md = md_suffix_vec();
    let mut j = t.len();
    while j >= 3 && occurs_at_exec(t, &md, j - 3)
        invariant
            j <= t.len(),
            md@ == md_suffix(),
            md_trim_end(t@, j as int) == md_trim_end(t@, t.len() as int),
        decreases j,
    {
        j -= 3;
    }
    j
}

/// The result of resolving a link: which note (if any) and whether its
/// `#heading` part (if given) exists.
#[derive(Debug, Clone, PartialEq, Eq)]
pub struct LinkStatus {
    pub path: Option<String>,
    pub heading_ok: bool,
}

impl Index {
    /// Resolve a `[[target]]` (the note part only) to a vault-relative path,
    /// from the perspective of the note at `from_rel`: exact path match wins;
    /// otherwise shortest-unique-path by filename, preferring the same folder
    /// as `from_rel`, then fewest path segments, then lexicographic.
    pub fn resolve(&self, target: &str, from_rel: &str) -> (r: Option<String>)
        requires
            self.wf(),
        ensures
            resolves_to(self@, target@, from_rel@, r.deep_view()),
    {
        let t = normalize_target(target);
        if t.len() == 0 {
            return None;
        }
        let md = md_suffix_vec();
        let mut wm = slice_of(&t, 0, t.len());
        assert(wm@ =~= t@);
        if !(t.len() >= 3 && occurs_at_exec(&t, &md, t.len() - 3)) {
            wm.push('.');
            wm.push('m');
            wm.push('d');
            assert(wm@ =~= t@ + md_suffix());
        }
        let wm_s = string_from_vec(&wm);
        if let Some(_) = self.find(wm_s.as_str()) {
            proof {
                let i = choose|i: int| 0 <= i < self.entries_seq().len() && #[trigger] self.entries_seq()[i].rel_path == wm@;
            }
            return Some(wm_s);
        }
        let e = md_trim_end_exec(&t);
        let p = slice_of(&t, 0, e);
        let a = after_last_exec(&p, '/', p.len());
        let name = slice_of(&p, a, p.len());
        let name_lower = to_lowercase(string_from_vec(&name).as_str());
        let from_v = chars_of(from_rel);
        let from_dir = dir_of(&from_v);
        let ghost s = self.entries_seq();
        let ghost m = self@;
        let ghost nm = str_lowercase(target_name(t@));
        assert(name_lower@ == nm);
        let mut best: Option<usize> = None;
        let mut i: usize = 0;
        while i < self.notes.len()
            invariant
                i <= self.notes.len(),
                s == self.entries_seq(),
                s == self.notes.deep_view(),
                m == self@,
                unique_keys(s),
                name_lower@ == nm,
                from_dir@ == dir_spec(from_rel@),
                match best {
                    Some(b) => b < i && str_lowercase(stem_spec(s[b as int].rel_path)) == nm
                        && forall|j: int|
                        0 <= j < i && str_lowercase(stem_spec(#[trigger] s[j].rel_path)) == nm
                            ==> !key_lt(s[j].rel_path, s[b as int].rel_path, from_dir@),
                    None => forall|j: int|
                        0 <= j < i ==> str_lowercase(stem_spec(#[trigger] s[j].rel_path)) != nm,
                },
            decreases self.notes.len() - i,
        {
            let rel = chars_of(self.notes[i].rel_path.as_str());
            let stem_lower = to_lowercase(string_from_vec(&stem_of(&rel)).as_str());
            if crate::text::str_eq(stem_lower.as_str(), name_lower.as_str()) {
                match best {
                    None => {
                        best = Some(i);
                        proof {
                            lemma_key_lt_order(rel@, rel@, rel@, from_dir@);
                        }
                    },
                    Some(b) => {
                        let cur = chars_of(self.notes[b].rel_path.as_str());
                        let better = key_lt_exec(&rel, &cur, &from_dir);
                        proof {
                            assert forall|j: int|
                                0 <= j <= i && str_lowercase(stem_spec(#[trigger] s[j].rel_path)) == nm
                                    implies !key_lt(
                                s[j].rel_path,
                                if better { rel@ } else { cur@ },
                                from_dir@,
                            ) by {
                                lemma_key_lt_order(s[j].rel_path, rel@, cur@, from_dir@);
                                lemma_key_lt_order(rel@, s[j].rel_path, cur@, from_dir@);
                                lemma_key_lt_order(s[j].rel_path, cur@, rel@, from_dir@);
                            }
                        }
                        if better {
                            best = Some(i);
                        }
                    },
                }
            }
            i += 1;
        }
        proof {
            assert forall|k: Seq<char>| is_candidate(m, nm, k) implies exists|j: int|
                0 <= j < s.len() && #[trigger] s[j].rel_path == k && str_lowercase(stem_spec(k)) == nm by {
                let j = choose|j: int| 0 <= j < s.len() && #[trigger] s[j].rel_path == k;
            }
        }
        match best {
            Some(b) => {
                proof {
                    lemma_entries_lookup(s, b as int);
                }
                Some(crate::text::copy_string(&self.notes[b].rel_path))
            },
            None => None,
        }
    }
}

} // verus!

verus! {

/// Does any heading match the requested `#fragment`, by slug or by raw text,
/// case-insensitively?
pub open spec fn heading_matches_spec(hs: Seq<HeadingV>, requested: Seq<char>) -> bool {
    exists|i: int|
        0 <= i < hs.len() && ((#[trigger] hs[i]).slug == crate::markdown::slugify_spec(requested)
            || str_lowercase(hs[i].text) == str_lowercase(trim(requested)))
}

/// Does any heading match the requested `#fragment`? Matches the GitHub slug or
/// the raw heading text, case-insensitively, so both `[[N#My Heading]]` and
/// `[[N#my-heading]]` resolve.
pub fn heading_matches(headings: &Vec<Heading>, requested: &str) -> (r: bool)
    ensures
        r == heading_matches_spec(headings.deep_view(), requested@),
{
    let req_slug = crate::markdown::slugify(requested);
    let req_lower = to_lowercase(crate::text::trim_str(requested).as_str());
    let mut i: usize = 0;
    while i < headings.len()
        invariant
            i <= headings.len(),
            req_slug@ == crate::markdown::slugify_spec(requested@),
            req_lower@ == str_lowercase(trim(requested@)),
            forall|j: int|
                0 <= j < i ==> !((#[trigger] headings.deep_view()[j]).slug == req_slug@
                    || str_lowercase(headings.deep_view()[j].text) == req_lower@),
        decreases headings.len() - i,
    {
        let h = &headings[i];
        let low = to_lowercase(h.text.as_str());
        if crate::text::str_eq(h.slug.as_str(), req_slug.as_str()) || crate::text::str_eq(
            low.as_str(),
            req_lower.as_str(),
        ) {
            assert(headings.deep_view()[i as int] == h.deep_view());
            return true;
        }
        assert(headings.deep_view()[i as int] == h.deep_view());
        i += 1;
    }
    false
}

impl Index {
    /// Resolve a link and report whether its optional `#heading` exists in the
    /// note it resolves to.
    pub fn link_status(&self, target: &str, heading: Option<&str>, from_rel: &str) -> (r:
        LinkStatus)
        requires
            self.wf(),
        ensures
            resolves_to(self@, target@, from_rel@, r.path.deep_view()),
            r.heading_ok == match r.path {
                None => false,
                Some(p) => match heading {
                    None => true,
                    Some(h) => self@.dom().contains(p@) && heading_matches_spec(
                        self@[p@].headings,
                        h@,
                    ),
                },
            },
    {
        match self.resolve(target, from_rel) {
            Some(path) => {
                let heading_ok = match heading {
                    None => true,
                    Some(h) => match self.get(path.as_str()) {
                        Some(n) => heading_matches(&n.headings, h),
                        None => false,
                    },
                };
                LinkStatus { path: Some(path), heading_ok }
            },
            None => LinkStatus { path: None, heading_ok: false },
        }
    }
}

// ---------------------------------------------------------------- backlinks

/// One inbound link to a note, as the index sees it.
pub struct BacklinkV {
    pub from: Seq<char>,
    pub line: usize,
    pub snippet: Seq<char>,
}

/// One inbound link to a note (a backlink / linked mention).
#[derive(Debug, Clone, PartialEq, Eq)]
pub struct Backlink {
    pub from: String,
    pub line: usize,
    pub snippet: String,
}

impl Backlink {
    /// A copy with the same contents.
    pub fn copy(&self) -> (r: Backlink)
        ensures
            r.deep_view() == self.deep_view(),
    {
        Backlink {
            from: crate::text::copy_string(&self.from),
            line: self.line,
            snippet: crate::text::copy_string(&self.snippet),
        }
    }
}

impl DeepView for Backlink {
    type V = BacklinkV;

    open spec fn deep_view(&self) -> BacklinkV {
        BacklinkV { from: self.from@, line: self.line, snippet: self.snippet@ }
    }
}

/// Backlinks to `target` among the first `n` links of the note at `from`.
pub open spec fn note_backlinks(
    m: Map<Seq<char>, NoteEntryV>,
    from: Seq<char>,
    links: Seq<LinkRefV>,
    target: Seq<char>,
    n: int,
) -> Seq<BacklinkV>
    decreases n,
{
    if n <= 0 || links.len() < n {
        Seq::empty()
    } else {
        note_backlinks(m, from, links, target, n - 1) + if resolves_to(
            m,
            links[n - 1].target,
            from,
            Some(target),
        ) {
            seq![BacklinkV { from, line: links[n - 1].line, snippet: links[n - 1].snippet }]
        } else {
            Seq::empty()
        }
    }
}

/// Backlinks to `target` from the first `n` notes of `s` (a note's links to
/// itself are not backlinks).
pub open spec fn all_backlinks(
    m: Map<Seq<char>, NoteEntryV>,
    s: Seq<NoteEntryV>,
    target: Seq<char>,
    n: int,
) -> Seq<BacklinkV>
    decreases n,
{
    if n <= 0 || s.len() < n {
        Seq::empty()
    } else {
        all_backlinks(m, s, target, n - 1) + if s[n - 1].rel_path == target {
            Seq::empty()
        } else {
            note_backlinks(m, s[n - 1].rel_path, s[n - 1].outgoing, target, s[n - 1].outgoing.len() as int)
        }
    }
}

/// Backlink order: by source path, then line.
pub open spec fn backlink_lt(a: BacklinkV, b: BacklinkV) -> bool {
    lex_lt(a.from, b.from) || (a.from == b.from && a.line < b.line)
}

pub open spec fn backlinks_sorted(s: Seq<BacklinkV>) -> bool {
    forall|i: int, j: int| 0 <= i < j < s.len() ==> !backlink_lt(#[trigger] s[j], #[trigger] s[i])
}

pub proof fn lemma_backlink_lt_order(a: BacklinkV, b: BacklinkV, c: BacklinkV)
    ensures
        backlink_lt(a, b) && backlink_lt(b, c) ==> backlink_lt(a, c),
        backlink_lt(a, b) ==> !backlink_lt(b, a),
{
    crate::text::lemma_lex_total(a.from, b.from);
    if lex_lt(a.from, b.from) && lex_lt(b.from, c.from) {
        crate::text::lemma_lex_trans(a.from, b.from, c.from);
    }
    if lex_lt(a.from, b.from) && b.from == c.from {
    }
    crate::text::lemma_lex_total(b.from, c.from);
    crate::text::lemma_lex_total(a.from, c.from);
}

pub proof fn lemma_insert_multiset<A>(s: Seq<A>, i: int, x: A)
    requires
        0 <= i <= s.len(),
    ensures
        s.insert(i, x).to_multiset() =~= s.to_multiset().insert(x),
{
    broadcast use vstd::seq_lib::group_to_multiset_ensures;
    let a = s.subrange(0, i);
    let b = s.subrange(i, s.len() as int);
    assert(s =~= a + b);
    assert(s.insert(i, x) =~= a.push(x) + b);
    vstd::seq_lib::lemma_multiset_commutative(a.push(x), b);
    vstd::seq_lib::lemma_multiset_commutative(a, b);
}

fn backlink_lt_exec(a: &Backlink, b: &Backlink) -> (r: bool)
    ensures
        r == backlink_lt(a.deep_view(), b.deep_view()),
{
    crate::text::str_lt(a.from.as_str(), b.from.as_str()) || (crate::text::str_eq(
        a.from.as_str(),
        b.from.as_str(),
    ) && a.line < b.line)
}

/// Stable insertion sort of backlinks by (source path, line).
fn sort_backlinks(v: Vec<Backlink>) -> (r: Vec<Backlink>)
    ensures
        backlinks_sorted(r.deep_view()),
        r.deep_view().to_multiset() == v.deep_view().to_multiset(),
{
    let mut out: Vec<Backlink> = Vec::new();
    let mut k: usize = 0;
    let ghost vv = v.deep_view();
    assert(vv.take(0) =~= out.deep_view());
    while k < v.len()
        invariant
            k <= v.len(),
            vv == v.deep_view(),
            backlinks_sorted(out.deep_view()),
            out.deep_view().to_multiset() == vv.take(k as int).to_multiset(),
        decreases v.len() - k,
    {
        let x = v[k].copy();
        let mut p: usize = 0;
        while p < out.len() && !backlink_lt_exec(&x, &out[p])
            invariant
                p <= out.len(),
                forall|q: int| 0 <= q < p ==> !backlink_lt(x.deep_view(), #[trigger] out.deep_view()[q]),
            decreases out.len() - p,
        {
            p += 1;
        }
        let ghost o = out.deep_view();
        out.insert(p, x);
        proof {
            let xv = x.deep_view();
            assert(out.deep_view() =~= o.insert(p as int, xv));
            lemma_insert_multiset(o, p as int, xv);
            assert(vv.take(k + 1) =~= vv.take(k as int).push(vv[k as int]));
            broadcast use vstd::seq_lib::group_to_multiset_ensures;
            let n = out.deep_view();
            assert forall|i: int, j: int| 0 <= i < j < n.len() implies !backlink_lt(#[trigger] n[j], #[trigger] n[i]) by {
                if j < p {
                    assert(n[i] == o[i] && n[j] == o[j]);
                } else if j == p {
                    assert(n[i] == o[i]);
                    lemma_backlink_lt_order(xv, o[i], o[i]);
                } else if i < p {
                    assert(n[i] == o[i] && n[j] == o[j - 1]);
                    lemma_backlink_lt_order(o[j - 1], xv, o[i]);
                    lemma_backlink_lt_order(o[j - 1], o[p as int], xv);
                    lemma_backlink_lt_order(xv, o[p as int], o[p as int]);
                    if p < o.len() {
                        lemma_backlink_lt_order(o[j - 1], o[i], o[p as int]);
                    }
                } else if i == p {
                    assert(n[j] == o[j - 1]);
                    lemma_backlink_lt_order(o[j - 1], xv, o[p as int]);
                    lemma_backlink_lt_order(xv, o[p as int], o[j - 1]);
                } else {
                    assert(n[i] == o[i - 1] && n[j] == o[j - 1]);
                }
            }
        }
        k += 1;
    }
    assert(vv.take(v.len() as int) =~= vv);
    out
}

} // verus!

verus! {

impl Index {
    /// Every note that links to `target_rel`, with context, sorted by source
    /// path then line. Computed on demand from the outgoing links, so it is
    /// always current with resolution.
    pub fn backlinks(&self, target_rel: &str) -> (r: Vec<Backlink>)
        requires
            self.wf(),
        ensures
            backlinks_sorted(r.deep_view()),
            r.deep_view().to_multiset() == all_backlinks(
                self@,
                self.entries_seq(),
                target_rel@,
                self.entries_seq().len() as int,
            ).to_multiset(),
    {
        let ghost m = self@;
        let ghost s = self.entries_seq();
        let ghost t = target_rel@;
        let mut out: Vec<Backlink> = Vec::new();
        let mut i: usize = 0;
        while i < self.notes.len()
            invariant
                i <= self.notes.len(),
                m == self@,
                s == self.entries_seq(),
                s == self.notes.deep_view(),
                t == target_rel@,
                self.wf(),
                out.deep_view() == all_backlinks(m, s, t, i as int),
            decreases self.notes.len() - i,
        {
            let note = &self.notes[i];
            assert(s[i as int] == note.deep_view());
            let ghost before = out.deep_view();
            if crate::text::str_eq(note.rel_path.as_str(), target_rel) {
                assert(out.deep_view() =~= all_backlinks(m, s, t, i + 1));
            } else {
                let ghost from = note.rel_path@;
                let ghost links = note.outgoing.deep_view();
                let mut j: usize = 0;
                assert(out.deep_view() =~= before + note_backlinks(m, from, links, t, 0));
                while j < note.outgoing.len()
                    invariant
                        j <= note.outgoing.len(),
                        note == &self.notes[i as int],
                        m == self@,
                        self.wf(),
                        from == note.rel_path@,
                        links == note.outgoing.deep_view(),
                        t == target_rel@,
                        out.deep_view() == before + note_backlinks(m, from, links, t, j as int),
                    decreases note.outgoing.len() - j,
                {
                    let link = &note.outgoing[j];
                    assert(links[j as int] == link.deep_view());
                    let res = self.resolve(link.target.as_str(), note.rel_path.as_str());
                    let ghost prev = out.deep_view();
                    let hit = match &res {
                        Some(p) => crate::text::str_eq(p.as_str(), target_rel),
                        None => false,
                    };
                    proof {
                        if resolves_to(m, links[j as int].target, from, Some(t)) {
                            lemma_resolve_unique(m, links[j as int].target, from, res.deep_view(), Some(t));
                        }
                    }
                    if hit {
                        let b = Backlink {
                            from: crate::text::copy_string(&note.rel_path),
                            line: link.line,
                            snippet: crate::text::copy_string(&link.snippet),
                        };
                        out.push(b);
                        assert(out.deep_view() =~= prev + seq![b.deep_view()]);
                    }
                    assert(out.deep_view() =~= before + note_backlinks(m, from, links, t, j + 1));
                    j += 1;
                }
                assert(out.deep_view() =~= all_backlinks(m, s, t, i + 1));
            }
            i += 1;
        }
        sort_backlinks(out)
    }
}

} // verus!

verus! {

// ---------------------------------------------------------------- rename rewrite

/// `new_rel` without its `.md` suffix (the path form of a link to it).
pub open spec fn path_ref(new_rel: Seq<char>) -> Seq<char> {
    if ends_with(new_rel, md_suffix()) {
        new_rel.subrange(0, new_rel.len() - 3)
    } else {
        new_rel
    }
}

/// Would a bare `[[stem]]` to the renamed note be ambiguous: does another note
/// (other than the old one) share the new stem, ignoring ASCII case?
pub open spec fn new_stem_ambiguous(m: Map<Seq<char>, NoteEntryV>, old_rel: Seq<char>, new_rel: Seq<char>) -> bool {
    exists|k: Seq<char>|
        #[trigger] m.dom().contains(k) && k != old_rel && crate::text::eq_ignore_ascii_case(
            stem_spec(k),
            stem_spec(new_rel),
        )
}

/// What a bare link to the renamed note becomes: the new stem, or the new
/// path when the stem is ambiguous.
pub open spec fn new_bare(m: Map<Seq<char>, NoteEntryV>, old_rel: Seq<char>, new_rel: Seq<char>) -> Seq<char> {
    if new_stem_ambiguous(m, old_rel, new_rel) {
        path_ref(new_rel)
    } else {
        stem_spec(new_rel)
    }
}

/// The new target of a link `target` to the renamed note: the new path when
/// the link named a path, else the new bare name.
pub open spec fn rename_replacement(
    m: Map<Seq<char>, NoteEntryV>,
    old_rel: Seq<char>,
    new_rel: Seq<char>,
    target: Seq<char>,
) -> Seq<char> {
    if target.contains('/') {
        path_ref(new_rel)
    } else {
        new_bare(m, old_rel, new_rel)
    }
}

/// The parts of the `[[...]]` opened at `i` and closed at `close`: the
/// trimmed target, the `#heading` suffix and the `|alias` suffix (each empty
/// when absent, kept verbatim otherwise).
pub open spec fn link_parts(s: Seq<char>, i: int, close: int) -> (Seq<char>, Seq<char>, Seq<char>) {
    let inner = s.subrange(i + 2, close);
    let bar = crate::parse::first_of(inner, '|', 0);
    let before_alias = inner.take(bar);
    let alias = if bar < inner.len() {
        seq!['|'] + inner.subrange(bar + 1, inner.len() as int)
    } else {
        Seq::empty()
    };
    let hash = crate::parse::first_of(before_alias, '#', 0);
    let heading = if hash < before_alias.len() {
        seq!['#'] + before_alias.subrange(hash + 1, before_alias.len() as int)
    } else {
        Seq::empty()
    };
    (trim(before_alias.take(hash)), heading, alias)
}

/// The rewritten text of the `[[...]]` opened at `i` and closed at `close`, if
/// it is a link (not an embed, not in code) that resolves to `old_rel`: the
/// target is replaced, `#heading` and `|alias` are kept verbatim.
pub open spec fn rewrite_one(
    m: Map<Seq<char>, NoteEntryV>,
    s: Seq<char>,
    code: Seq<(usize, usize)>,
    from: Seq<char>,
    old_rel: Seq<char>,
    new_rel: Seq<char>,
    i: int,
    close: int,
) -> Option<Seq<char>> {
    if crate::parse::is_embed(s, i) || crate::parse::in_code(s, code, i) {
        None
    } else {
        let (target, heading, alias) = link_parts(s, i, close);
        if target.len() > 0 && resolves_to(m, target, from, Some(old_rel)) {
            let replacement = rename_replacement(m, old_rel, new_rel, target);
            Some(seq!['[', '['] + replacement + heading + alias + seq![']', ']'])
        } else {
            None
        }
    }
}

fn link_parts_exec(v: &Vec<char>, i: usize, close: usize) -> (r: (Vec<char>, Vec<char>, Vec<char>))
    requires
        i + 2 <= close,
        close < v.len(),
    ensures
        (r.0@, r.1@, r.2@) == link_parts(v@, i as int, close as int),
{
    let bar = crate::parse::find_char_in(v, '|', i + 2, close);
    let hash = crate::parse::find_char_in(v, '#', i + 2, bar);
    let target = crate::parse::trimmed(v, i + 2, hash);
    let ghost inner = v@.subrange(i + 2, close as int);
    let ghost ba = inner.take(crate::parse::first_of(inner, '|', 0));
    assert(ba =~= v@.subrange(i + 2, bar as int));
    assert(ba.take(crate::parse::first_of(ba, '#', 0)) =~= v@.subrange(i + 2, hash as int));
    let mut heading: Vec<char> = Vec::new();
    if hash < bar {
        heading.push('#');
        append_range(&mut heading, v, hash + 1, bar);
        assert(ba.subrange(hash - (i + 2) + 1, ba.len() as int) =~= v@.subrange(hash + 1, bar as int));
        assert(heading@ =~= seq!['#'] + ba.subrange(hash - (i + 2) + 1, ba.len() as int));
    }
    let mut alias: Vec<char> = Vec::new();
    if bar < close {
        alias.push('|');
        append_range(&mut alias, v, bar + 1, close);
        assert(inner.subrange(bar - (i + 2) + 1, inner.len() as int) =~= v@.subrange(bar + 1, close as int));
        assert(alias@ =~= seq!['|'] + inner.subrange(bar - (i + 2) + 1, inner.len() as int));
    }
    (target, heading, alias)
}

/// The text from `i` on, with each link to `old_rel` rewritten; and whether
/// anything was rewritten.
pub open spec fn rewrite_from(
    m: Map<Seq<char>, NoteEntryV>,
    s: Seq<char>,
    code: Seq<(usize, usize)>,
    from: Seq<char>,
    old_rel: Seq<char>,
    new_rel: Seq<char>,
    i: int,
) -> (Seq<char>, bool)
    decreases s.len() - i,
{
    if i < 0 || i >= s.len() {
        (Seq::empty(), false)
    } else if i + 1 < s.len() && s[i] == '[' && s[i + 1] == '[' && crate::parse::find_close_spec(
        s,
        i + 2,
    ) is Some {
        proof {
            crate::parse::lemma_find_close_bounds(s, i + 2);
        }
        let close = crate::parse::find_close_spec(s, i + 2)->0;
        let rest = rewrite_from(m, s, code, from, old_rel, new_rel, close + 2);
        match rewrite_one(m, s, code, from, old_rel, new_rel, i, close) {
            Some(r) => (r + rest.0, true),
            None => (s.subrange(i, close + 2) + rest.0, rest.1),
        }
    } else {
        let rest = rewrite_from(m, s, code, from, old_rel, new_rel, i + 1);
        (seq![s[i]] + rest.0, rest.1)
    }
}

proof fn lemma_rewrite_untouched(
    m: Map<Seq<char>, NoteEntryV>,
    s: Seq<char>,
    code: Seq<(usize, usize)>,
    from: Seq<char>,
    old_rel: Seq<char>,
    new_rel: Seq<char>,
    i: int,
)
    requires
        0 <= i <= s.len(),
        !rewrite_from(m, s, code, from, old_rel, new_rel, i).1,
    ensures
        rewrite_from(m, s, code, from, old_rel, new_rel, i).0 == s.skip(i),
    decreases s.len() - i,
{
    if i < s.len() {
        if i + 1 < s.len() && s[i] == '[' && s[i + 1] == '[' && crate::parse::find_close_spec(s, i + 2) is Some {
            crate::parse::lemma_find_close_bounds(s, i + 2);
            let close = crate::parse::find_close_spec(s, i + 2)->0;
            lemma_rewrite_untouched(m, s, code, from, old_rel, new_rel, close + 2);
            assert(s.skip(i) =~= s.subrange(i, close + 2) + s.skip(close + 2));
        } else {
            lemma_rewrite_untouched(m, s, code, from, old_rel, new_rel, i + 1);
            assert(s.skip(i) =~= seq![s[i]] + s.skip(i + 1));
        }
    } else {
        assert(s.skip(i) =~= Seq::<char>::empty());
    }
}

/// A rewrite that changes no link changes nothing at all: the whole text is
/// copied through, which is why "no link changed" is reported as `None`.
pub proof fn law_rewrite_without_matches_is_identity(
    m: Map<Seq<char>, NoteEntryV>,
    content: Seq<char>,
    code: Seq<(usize, usize)>,
    from: Seq<char>,
    old_rel: Seq<char>,
    new_rel: Seq<char>,
)
    requires
        rewrite_spec(m, content, code, from, old_rel, new_rel) is None,
    ensures
        rewrite_from(m, content, code, from, old_rel, new_rel, 0).0 == content,
{
    lemma_rewrite_untouched(m, content, code, from, old_rel, new_rel, 0);
    assert(content.skip(0) =~= content);
}

/// The rewrite of `content` given its code ranges: `None` if no link changed.
pub open spec fn rewrite_spec(
    m: Map<Seq<char>, NoteEntryV>,
    content: Seq<char>,
    code: Seq<(usize, usize)>,
    from: Seq<char>,
    old_rel: Seq<char>,
    new_rel: Seq<char>,
) -> Option<Seq<char>> {
    let r = rewrite_from(m, content, code, from, old_rel, new_rel, 0);
    if r.1 {
        Some(r.0)
    } else {
        None
    }
}

fn push_range(out: &mut String, v: &Vec<char>, from: usize, to: usize)
    requires
        from <= to <= v.len(),
    ensures
        final(out)@ == old(out)@ + v@.subrange(from as int, to as int),
{
    let mut i = from;
    while i < to
        invariant
            from <= i <= to <= v.len(),
            out@ == old(out)@ + v@.subrange(from as int, i as int),
        decreases to - i,
    {
        out.push(v[i]);
        i += 1;
        assert(out@ =~= old(out)@ + v@.subrange(from as int, i as int));
    }
}

/// Rewrite `[[links]]` in `content` (from the note at `from_rel`) that resolve
/// to `old_rel`, given the parser's event stream for `content`. See
/// [`rewrite_inbound_links`].
pub fn rewrite_links_with_events(
    content: &str,
    events: &Vec<crate::markdown::MdEvent>,
    from_rel: &str,
    index: &Index,
    old_rel: &str,
    new_rel: &str,
) -> (r: Option<String>)
    requires
        index.wf(),
    ensures
        r.deep_view() == rewrite_spec(
            index@,
            content@,
            crate::markdown::md_structure(events.deep_view()).code,
            from_rel@,
            old_rel@,
            new_rel@,
        ),
{
    let ghost m = index@;
    let nv = chars_of(new_rel);
    let new_stem = stem_of(&nv);
    let md = md_suffix_vec();
    let new_path = if nv.len() >= 3 && occurs_at_exec(&nv, &md, nv.len() - 3) {
        slice_of(&nv, 0, nv.len() - 3)
    } else {
        slice_of(&nv, 0, nv.len())
    };
    assert(new_path@ =~= path_ref(new_rel@));
    let new_stem_s = string_from_vec(&new_stem);
    let mut ambiguous = false;
    let entries = index.entries();
    let ghost s = entries.deep_view();
    let mut k: usize = 0;
    while k < entries.len()
        invariant
            k <= entries.len(),
            s == entries.deep_view(),
            m == entries_map(s),
            unique_keys(s),
            new_stem_s@ == stem_spec(new_rel@),
            ambiguous == exists|j: int|
                0 <= j < k && #[trigger] s[j].rel_path != old_rel@ && crate::text::eq_ignore_ascii_case(
                    stem_spec(s[j].rel_path),
                    stem_spec(new_rel@),
                ),
        decreases entries.len() - k,
    {
        let rv = chars_of(entries[k].rel_path.as_str());
        assert(s[k as int].rel_path == rv@);
        let st = string_from_vec(&stem_of(&rv));
        if !crate::text::str_eq(entries[k].rel_path.as_str(), old_rel)
            && crate::text::str_eq_ignore_ascii_case(st.as_str(), new_stem_s.as_str()) {
            ambiguous = true;
        }
        k += 1;
    }
    proof {
        if ambiguous {
            let j = choose|j: int|
                0 <= j < k && #[trigger] s[j].rel_path != old_rel@ && crate::text::eq_ignore_ascii_case(
                    stem_spec(s[j].rel_path),
                    stem_spec(new_rel@),
                );
            lemma_entries_lookup(s, j);
            assert(m.dom().contains(s[j].rel_path));
        }
        if new_stem_ambiguous(m, old_rel@, new_rel@) {
            let kk = choose|kk: Seq<char>|
                #[trigger] m.dom().contains(kk) && kk != old_rel@ && crate::text::eq_ignore_ascii_case(
                    stem_spec(kk),
                    stem_spec(new_rel@),
                );
            let j = choose|j: int| 0 <= j < s.len() && #[trigger] s[j].rel_path == kk;
        }
    }
    let bare = if ambiguous {
        slice_of(&new_path, 0, new_path.len())
    } else {
        new_stem
    };
    assert(bare@ =~= new_bare(m, old_rel@, new_rel@));
    let v = chars_of(content);
    let offs = crate::parse::byte_offsets(&v);
    let st = crate::markdown::note_structure(events);
    let code = st.code;
    let ghost cs = code@;
    let mut out = String::new();
    let mut changed = false;
    let mut i: usize = 0;
    while i < v.len()
        invariant
            i <= v.len(),
            index.wf(),
            m == index@,
            offs.len() == v.len() + 1,
            forall|kk: int| 0 <= kk <= v.len() ==> offs@[kk] == crate::parse::byte_offset(v@, kk),
            cs == code@,
            v@ == content@,
            new_path@ == path_ref(new_rel@),
            bare@ == new_bare(m, old_rel@, new_rel@),
            ({
                let total = rewrite_from(m, v@, cs, from_rel@, old_rel@, new_rel@, 0);
                let rest = rewrite_from(m, v@, cs, from_rel@, old_rel@, new_rel@, i as int);
                &&& out@ + rest.0 == total.0
                &&& (changed || rest.1) == total.1
            }),
        decreases v.len() - i,
    {
        let ghost before = out@;
        let mut advanced = false;
        if i + 1 < v.len() && v[i] == '[' && v[i + 1] == '[' {
            match crate::parse::find_close(&v, i + 2) {
                Some(close) => {
                    proof {
                        crate::parse::lemma_find_close_bounds(v@, i + 2);
                    }
                    let ghost rest = rewrite_from(m, v@, cs, from_rel@, old_rel@, new_rel@, close + 2);
                    match rewrite_at(&v, &offs, &code, index, from_rel, old_rel, new_rel, &new_path, &bare, i, close) {
                        Some(rep) => {
                            crate::text::push_all(&mut out, &rep);
                            changed = true;
                        },
                        None => {
                            push_range(&mut out, &v, i, close + 2);
                        },
                    }
                    assert(out@ + rest.0 =~= before + rewrite_from(m, v@, cs, from_rel@, old_rel@, new_rel@, i as int).0);
                    i = close + 2;
                    advanced = true;
                },
                None => {},
            }
        }
        if !advanced {
            out.push(v[i]);
            assert(out@ =~= before + seq![v@[i as int]]);
            i += 1;
        }
    }
    if changed {
        Some(out)
    } else {
        None
    }
}

/// The replacement text for the `[[...]]` at `i`..`close`, if it is rewritten.
fn rewrite_at(
    v: &Vec<char>,
    offs: &Vec<u128>,
    code: &Vec<(usize, usize)>,
    index: &Index,
    from_rel: &str,
    old_rel: &str,
    new_rel: &str,
    new_path: &Vec<char>,
    bare: &Vec<char>,
    i: usize,
    close: usize,
) -> (r: Option<Vec<char>>)
    requires
        index.wf(),
        i + 2 <= close,
        close + 1 < v.len(),
        offs.len() == v.len() + 1,
        forall|kk: int| 0 <= kk <= v.len() ==> offs@[kk] == crate::parse::byte_offset(v@, kk),
        new_path@ == path_ref(new_rel@),
        bare@ == new_bare(index@, old_rel@, new_rel@),
    ensures
        r.deep_view() == rewrite_one(index@, v@, code@, from_rel@, old_rel@, new_rel@, i as int, close as int),
{
    let ghost m = index@;
    let embed = i > 0 && v[i - 1] == '!';
    let in_code = crate::parse::in_code_exec(v, offs, code, i);
    if embed || in_code {
        return None;
    }
    let (target, heading, alias) = link_parts_exec(v, i, close);
    if target.len() == 0 {
        return None;
    }
    let ts = string_from_vec(&target);
    let res = index.resolve(ts.as_str(), from_rel);
    let hit = match &res {
        Some(p) => crate::text::str_eq(p.as_str(), old_rel),
        None => false,
    };
    proof {
        if resolves_to(m, target@, from_rel@, Some(old_rel@)) {
            lemma_resolve_unique(m, target@, from_rel@, res.deep_view(), Some(old_rel@));
        }
    }
    if !hit {
        return None;
    }
    let mut out: Vec<char> = Vec::new();
    out.push('[');
    out.push('[');
    let repl = if crate::text::contains_char(&target, '/') {
        new_path
    } else {
        bare
    };
    append_range(&mut out, repl, 0, repl.len());
    append_range(&mut out, &heading, 0, heading.len());
    append_range(&mut out, &alias, 0, alias.len());
    out.push(']');
    out.push(']');
    proof {
        assert(repl@.subrange(0, repl.len() as int) =~= repl@);
        assert(heading@.subrange(0, heading.len() as int) =~= heading@);
        assert(alias@.subrange(0, alias.len() as int) =~= alias@);
    }
    let r = Some(out);
    assert(r.deep_view() =~= rewrite_one(m, v@, code@, from_rel@, old_rel@, new_rel@, i as int, close as int));
    r
}

fn append_range(out: &mut Vec<char>, v: &Vec<char>, from: usize, to: usize)
    requires
        from <= to <= v.len(),
    ensures
        final(out)@ == old(out)@ + v@.subrange(from as int, to as int),
{
    let mut i = from;
    while i < to
        invariant
            from <= i <= to <= v.len(),
            out@ == old(out)@ + v@.subrange(from as int, i as int),
        decreases to - i,
    {
        out.push(v[i]);
        i += 1;
        assert(out@ =~= old(out)@ + v@.subrange(from as int, i as int));
    }
}

/// Rewrite `[[links]]` in `content` (from the note at `from_rel`) that resolve to
/// `old_rel`, pointing them at `new_rel`. Bare targets become the new filename
/// stem (or the new path if that stem is ambiguous); path-qualified targets
/// become the new path. `#heading`/`|alias` and all other characters are
/// preserved; links in code spans/blocks and `![[embeds]]` are skipped. Returns
/// `None` if nothing changed.
pub fn rewrite_inbound_links(content: &str, from_rel: &str, index: &Index, old_rel: &str, new_rel: &str) -> (r: Option<String>)
    requires
        index.wf(),
    ensures
        r.deep_view() == rewrite_spec(
            index@,
            content@,
            crate::markdown::md_structure(crate::markdown::markdown_events(content@)).code,
            from_rel@,
            old_rel@,
            new_rel@,
        ),
{
    let events = crate::markdown::markdown_events_of(content);
    rewrite_links_with_events(content, &events, from_rel, index, old_rel, new_rel)
}

} // verus!

verus! {

// ---------------------------------------------------------------- task write-back

/// Start of the 1-based line `line`, counting lines from position `pos`.
pub open spec fn line_start_of(s: Seq<char>, pos: int, line: int) -> Option<int>
    decreases line,
{
    if line <= 1 {
        Some(pos)
    } else {
        let nl = crate::parse::first_of(s, '\n', pos);
        if nl >= s.len() {
            None
        } else {
            line_start_of(s, nl + 1, line - 1)
        }
    }
}

pub proof fn lemma_line_start_of_bounds(s: Seq<char>, pos: int, line: int)
    requires
        0 <= pos <= s.len(),
    ensures
        line_start_of(s, pos, line) matches Some(st) ==> pos <= st <= s.len(),
    decreases line,
{
    if line > 1 {
        crate::parse::lemma_first_of_bounds(s, '\n', pos);
        let nl = crate::parse::first_of(s, '\n', pos);
        if nl < s.len() {
            lemma_line_start_of_bounds(s, nl + 1, line - 1);
        }
    }
}

pub open spec fn msg_line_zero() -> Seq<char> {
    "line numbers start at 1"@
}

pub open spec fn msg_past_end(line: usize) -> Seq<char> {
    "line "@ + crate::text::decimal(line as nat) + " is past the end of the file"@
}

pub open spec fn msg_not_task(line: usize) -> Seq<char> {
    "line "@ + crate::text::decimal(line as nat) + " is not a task"@
}

pub open spec fn msg_changed(line: usize) -> Seq<char> {
    "the task on line "@ + crate::text::decimal(line as nat)
        + " changed since the query ran \u{2014} refresh and try again"@
}

/// Where the checkbox of line `line` sits, with the line's bounds: `(line
/// start, line end, status column, done, body start)`.
pub open spec fn task_site(s: Seq<char>, line: usize) -> Option<(int, int, int, bool, int)> {
    match line_start_of(s, 0, line as int) {
        None => None,
        Some(st) => {
            let e = crate::parse::first_of(s, '\n', st);
            match crate::parse::parse_task_line_spec(s.subrange(st, e)) {
                None => None,
                Some((col, d, j)) => Some((st, e, col, d, j)),
            }
        },
    }
}

/// Flip one task's checkbox in `s`, re-verifying that line `line` still holds
/// the expected task: the new content and done-state, or the mismatch message.
pub open spec fn toggle_spec(s: Seq<char>, line: usize, text: Seq<char>, done: bool) -> Result<
    (Seq<char>, bool),
    Seq<char>,
> {
    if line == 0 {
        Err(msg_line_zero())
    } else {
        match line_start_of(s, 0, line as int) {
            None => Err(msg_past_end(line)),
            Some(st) => {
                let e = crate::parse::first_of(s, '\n', st);
                let l = s.subrange(st, e);
                match crate::parse::parse_task_line_spec(l) {
                    None => Err(msg_not_task(line)),
                    Some((col, d, j)) => if d != done || trim(l.subrange(j, l.len() as int)) != trim(
                        text,
                    ) {
                        Err(msg_changed(line))
                    } else {
                        Ok(
                            (
                                s.update(
                                    st + col,
                                    if d {
                                        ' '
                                    } else {
                                        'x'
                                    },
                                ),
                                !d,
                            ),
                        )
                    },
                }
            },
        }
    }
}

fn message(parts: &Vec<char>) -> (s: String)
    ensures
        s@ == parts@,
{
    string_from_vec(parts)
}

/// Flip a single task's checkbox in LF-normalized `content`, re-verifying that
/// the target line still is the expected task before editing (precise
/// write-back). Matching the expected text + status means a line that shifted or
/// changed under us is refused rather than mis-edited. Exactly one character —
/// the status character between the brackets — is changed; every other
/// character is preserved.
///
/// Returns the new content and the task's new done-state, or
/// [`AppError::TaskMismatch`].
pub fn toggle_task_line(content: &str, line: usize, expected_text: &str, expected_done: bool) -> (r:
    crate::error::AppResult<(String, bool)>)
    ensures
        match toggle_spec(content@, line, expected_text@, expected_done) {
            Ok((c, d)) => r matches Ok((s, d2)) && s@ == c && d2 == d,
            Err(msg) => r matches Err(crate::error::AppError::TaskMismatch(m)) && m@ == msg,
        },
{

    if line == 0 {
        return Err(AppError::TaskMismatch(crate::text::copy_string(&String::from_str("line numbers start at 1"))));
    }
    let mut v = chars_of(content);
    let ghost s = v@;
    let mut start: usize = 0;
    let mut current: usize = 1;
    while current < line
        invariant
            1 <= current <= line,
            start <= v.len(),
            v@ == s,
            s == content@,
            line != 0,
            line_start_of(s, start as int, (line - current + 1) as int) == line_start_of(
                s,
                0,
                line as int,
            ),
        decreases line - current,
    {
        let nl = crate::parse::find_char_in(&v, '\n', start, v.len());
        assert(s.subrange(start as int, s.len() as int) =~= s.subrange(start as int, s.len() as int));
        proof {
            crate::parse::lemma_first_of_shift(s, '\n', start as int);
        }
        if nl >= v.len() {
            assert(line_start_of(s, start as int, (line - current + 1) as int) is None);
            let mut m = String::from_str("line ");
            crate::text::push_str(&mut m, crate::text::decimal_string(line as u128).as_str());
            crate::text::push_str(&mut m, " is past the end of the file");
            assert(m@ == msg_past_end(line));
            assert(toggle_spec(content@, line, expected_text@, expected_done) == Err::<(Seq<char>, bool), Seq<char>>(msg_past_end(line)));
            return Err(AppError::TaskMismatch(m));
        }
        start = nl + 1;
        current += 1;
    }
    let end = crate::parse::find_char_in(&v, '\n', start, v.len());
    proof {
        crate::parse::lemma_first_of_shift(s, '\n', start as int);
    }
    let l = slice_of(&v, start, end);
    match crate::parse::parse_task_chars(&l) {
        None => {
            let mut m = String::from_str("line ");
            crate::text::push_str(&mut m, crate::text::decimal_string(line as u128).as_str());
            crate::text::push_str(&mut m, " is not a task");
            Err(AppError::TaskMismatch(m))
        },
        Some((col, d, j)) => {
            let body = crate::parse::trimmed(&l, j, l.len());
            let et = trim_vec(&chars_of(expected_text));
            if d != expected_done || !vec_eq(&body, &et) {
                let mut m = String::from_str("the task on line ");
                crate::text::push_str(&mut m, crate::text::decimal_string(line as u128).as_str());
                crate::text::push_str(&mut m, " changed since the query ran \u{2014} refresh and try again");
                return Err(AppError::TaskMismatch(m));
            }
            let flipped = if d {
                ' '
            } else {
                'x'
            };
            v.set(start + col, flipped);
            Ok((string_from_vec(&v), !d))
        },
    }
}


} // verus!

verus! {

proof fn lemma_first_of_update(s: Seq<char>, p: int, x: char, c: char, k: int)
    requires
        0 <= p < s.len(),
        0 <= k <= s.len(),
        s[p] != c,
        x != c,
    ensures
        crate::parse::first_of(s.update(p, x), c, k) == crate::parse::first_of(s, c, k),
    decreases s.len() - k,
{
    if k < s.len() && s[k] != c {
        lemma_first_of_update(s, p, x, c, k + 1);
    }
}

proof fn lemma_line_start_of_update(s: Seq<char>, p: int, x: char, pos: int, line: int)
    requires
        0 <= p < s.len(),
        0 <= pos <= s.len(),
        s[p] != '\n',
        x != '\n',
    ensures
        line_start_of(s.update(p, x), pos, line) == line_start_of(s, pos, line),
    decreases line,
{
    if line > 1 {
        lemma_first_of_update(s, p, x, '\n', pos);
        crate::parse::lemma_first_of_bounds(s, '\n', pos);
        let nl = crate::parse::first_of(s, '\n', pos);
        if nl < s.len() {
            lemma_line_start_of_update(s, p, x, nl + 1, line - 1);
        }
    }
}

proof fn lemma_skip_blank_update(l: Seq<char>, col: int, x: char, i: int)
    requires
        0 <= i <= l.len(),
        0 <= col < l.len(),
        crate::parse::skip_blank(l, i) < col,
    ensures
        crate::parse::skip_blank(l.update(col, x), i) == crate::parse::skip_blank(l, i),
    decreases l.len() - i,
{
    crate::parse::lemma_skip_blank_bounds(l, i);
    if i < l.len() {
        assert(l.update(col, x)[i] == l[i]);
    }
    if i < l.len() && crate::parse::is_blank(l[i]) {
        lemma_skip_blank_update(l, col, x, i + 1);
    }
}

proof fn lemma_parse_task_bounds(l: Seq<char>)
    ensures
        crate::parse::parse_task_line_spec(l) matches Some((c, d, j)) ==> 0 <= c && c + 1 < l.len()
            && c + 2 <= j <= l.len(),
{
    crate::parse::lemma_skip_blank_bounds(l, 0);
    let i0 = crate::parse::skip_blank(l, 0);
    if i0 + 1 < l.len() {
        crate::parse::lemma_skip_blank_bounds(l, i0 + 1);
    }
}

proof fn lemma_parse_task_update(l: Seq<char>, x: char)
    requires
        crate::parse::parse_task_line_spec(l) is Some,
        x == ' ' || x == 'x',
    ensures
        ({
            let (col, d, j) = crate::parse::parse_task_line_spec(l)->0;
            crate::parse::parse_task_line_spec(l.update(col, x)) == Some((col, x != ' ', j))
        }),
{
    let (col, d, j) = crate::parse::parse_task_line_spec(l)->0;
    lemma_parse_task_bounds(l);
    crate::parse::lemma_skip_blank_bounds(l, 0);
    let i0 = crate::parse::skip_blank(l, 0);
    crate::parse::lemma_skip_blank_bounds(l, i0 + 1);
    lemma_skip_blank_update(l, col, x, 0);
    lemma_skip_blank_update(l, col, x, i0 + 1);
}

/// Toggling a task and then toggling it back (expecting the new state)
/// restores the original text exactly — unless its checkbox was `[X]`, which
/// comes back as `[x]`.
pub proof fn law_toggle_round_trip(s: Seq<char>, line: usize, text: Seq<char>, done: bool)
    requires
        toggle_spec(s, line, text, done) is Ok,
        task_site(s, line) matches Some((st, e, col, d, j)) ==> s[st + col] != 'X',
    ensures
        toggle_spec(s, line, text, done)->Ok_0.1 == !done,
        toggle_spec(toggle_spec(s, line, text, done)->Ok_0.0, line, text, !done) == Ok::<
            (Seq<char>, bool),
            Seq<char>,
        >((s, done)),
{
    lemma_line_start_of_bounds(s, 0, line as int);
    let st = line_start_of(s, 0, line as int)->0;
    crate::parse::lemma_first_of_bounds(s, '\n', st);
    let e = crate::parse::first_of(s, '\n', st);
    let l = s.subrange(st, e);
    lemma_parse_task_bounds(l);
    let (col, d, j) = crate::parse::parse_task_line_spec(l)->0;
    let x = if d {
        ' '
    } else {
        'x'
    };
    let s2 = s.update(st + col, x);
    assert(l[col] == s[st + col]);
    assert(l[col] == ' ' || l[col] == 'x' || l[col] == 'X');
    lemma_line_start_of_update(s, st + col, x, 0, line as int);
    lemma_first_of_update(s, st + col, x, '\n', st);
    let l2 = s2.subrange(st, e);
    assert(l2 =~= l.update(col, x));
    lemma_parse_task_update(l, x);
    assert(l2.subrange(j, l2.len() as int) =~= l.subrange(j, l.len() as int));
    let y = if !d {
        ' '
    } else {
        'x'
    };
    assert(s2.update(st + col, y) =~= s);
}

} // verus!

verus! {

impl Heading {
    /// A copy with the same contents.
    pub fn copy(&self) -> (r: Heading)
        ensures
            r.deep_view() == self.deep_view(),
    {
        Heading { text: copy_string(&self.text), slug: copy_string(&self.slug), level: self.level }
    }
}

impl LinkRef {
    /// A copy with the same contents.
    pub fn copy(&self) -> (r: LinkRef)
        ensures
            r.deep_view() == self.deep_view(),
    {
        LinkRef {
            target: copy_string(&self.target),
            heading: copy_opt_string(&self.heading),
            line: self.line,
            snippet: copy_string(&self.snippet),
        }
    }
}

impl Task {
    /// A copy with the same contents.
    pub fn copy(&self) -> (r: Task)
        ensures
            r.deep_view() == self.deep_view(),
    {
        Task {
            text: copy_string(&self.text),
            done: self.done,
            tags: copy_strings(&self.tags),
            due: copy_opt_string(&self.due),
            line: self.line,
        }
    }
}

fn copy_headings(v: &Vec<Heading>) -> (r: Vec<Heading>)
    ensures
        r.deep_view() == v.deep_view(),
{
    let mut r: Vec<Heading> = Vec::new();
    let mut i: usize = 0;
    while i < v.len()
        invariant
            i <= v.len(),
            r.deep_view() == v.deep_view().take(i as int),
        decreases v.len() - i,
    {
        let c = v[i].copy();
        let ghost before = r.deep_view();
        r.push(c);
        assert(r.deep_view() =~= before.push(c.deep_view()));
        assert(v.deep_view().take(i + 1) =~= v.deep_view().take(i as int).push(v[i as int].deep_view()));
        i += 1;
    }
    assert(v.deep_view().take(v.len() as int) =~= v.deep_view());
    r
}

fn copy_links(v: &Vec<LinkRef>) -> (r: Vec<LinkRef>)
    ensures
        r.deep_view() == v.deep_view(),
{
    let mut r: Vec<LinkRef> = Vec::new();
    let mut i: usize = 0;
    while i < v.len()
        invariant
            i <= v.len(),
            r.deep_view() == v.deep_view().take(i as int),
        decreases v.len() - i,
    {
        let c = v[i].copy();
        let ghost before = r.deep_view();
        r.push(c);
        assert(r.deep_view() =~= before.push(c.deep_view()));
        assert(v.deep_view().take(i + 1) =~= v.deep_view().take(i as int).push(v[i as int].deep_view()));
        i += 1;
    }
    assert(v.deep_view().take(v.len() as int) =~= v.deep_view());
    r
}

fn copy_tasks(v: &Vec<Task>) -> (r: Vec<Task>)
    ensures
        r.deep_view() == v.deep_view(),
{
    let mut r: Vec<Task> = Vec::new();
    let mut i: usize = 0;
    while i < v.len()
        invariant
            i <= v.len(),
            r.deep_view() == v.deep_view().take(i as int),
        decreases v.len() - i,
    {
        let c = v[i].copy();
        let ghost before = r.deep_view();
        r.push(c);
        assert(r.deep_view() =~= before.push(c.deep_view()));
        assert(v.deep_view().take(i + 1) =~= v.deep_view().take(i as int).push(v[i as int].deep_view()));
        i += 1;
    }
    assert(v.deep_view().take(v.len() as int) =~= v.deep_view());
    r
}

impl NoteEntry {
    /// A copy with the same contents.
    pub fn copy(&self) -> (r: NoteEntry)
        ensures
            r.deep_view() == self.deep_view(),
    {
        NoteEntry {
            rel_path: copy_string(&self.rel_path),
            title: copy_string(&self.title),
            headings: copy_headings(&self.headings),
            outgoing: copy_links(&self.outgoing),
            tasks: copy_tasks(&self.tasks),
            classification: copy_opt_string(&self.classification),
            mtime: self.mtime,
            size: self.size,
        }
    }
}

} // verus!

verus! {

impl Index {
    /// The distinct notes that link to `target_rel` (in path order): the notes
    /// a rename of the target must rewrite.
    pub fn linking_notes(&self, target_rel: &str) -> (r: Vec<String>)
        requires
            self.wf(),
        ensures
            r.deep_view().no_duplicates(),
            forall|a: int, b: int| 0 <= a < b < r.len() ==> lex_lt(#[trigger] r.deep_view()[a], #[trigger] r.deep_view()[b]),
            forall|k: Seq<char>|
                #![trigger r.deep_view().contains(k)]
                r.deep_view().contains(k) <==> exists|i: int|
                    0 <= i < all_backlinks(self@, self.entries_seq(), target_rel@, self.entries_seq().len() as int).len()
                        && (#[trigger] all_backlinks(self@, self.entries_seq(), target_rel@, self.entries_seq().len() as int)[i]).from == k,
    {
        broadcast use vstd::seq_lib::group_to_multiset_ensures;
        let backs = self.backlinks(target_rel);
        let ghost bv = backs.deep_view();
        let ghost all = all_backlinks(self@, self.entries_seq(), target_rel@, self.entries_seq().len() as int);
        let mut out: Vec<String> = Vec::new();
        let mut i: usize = 0;
        while i < backs.len()
            invariant
                i <= backs.len(),
                bv == backs.deep_view(),
                backlinks_sorted(bv),
                forall|a: int, b: int| 0 <= a < b < out.len() ==> lex_lt(#[trigger] out.deep_view()[a], #[trigger] out.deep_view()[b]),
                i > 0 ==> out.len() > 0 && out.deep_view().last() == bv[i - 1].from,
                i == 0 ==> out.len() == 0,
                forall|k: Seq<char>| #![trigger out.deep_view().contains(k)]
                    out.deep_view().contains(k) <==> exists|j: int| 0 <= j < i && (#[trigger] bv[j]).from == k,
            decreases backs.len() - i,
        {
            let from = &backs[i].from;
            assert(bv[i as int].from == from@);
            let fresh = out.len() == 0 || !crate::text::str_eq(out[out.len() - 1].as_str(), from.as_str());
            let ghost before = out.deep_view();
            if fresh {
                let c = crate::text::copy_string(from);
                out.push(c);
                assert(out.deep_view() =~= before.push(c@));
                proof {
                    if i > 0 {
                        assert(!backlink_lt(bv[i as int], bv[i - 1]));
                        crate::text::lemma_lex_total(bv[i - 1].from, bv[i as int].from);
                        assert forall|a: int, b: int| 0 <= a < b < out.len() implies lex_lt(#[trigger] out.deep_view()[a], #[trigger] out.deep_view()[b]) by {
                            if b == out.len() - 1 && a < b - 1 {
                                assert(lex_lt(before[a], before[before.len() - 1]));
                                crate::text::lemma_lex_trans(before[a], before[before.len() - 1], from@);
                            }
                        }
                    }
                }
            }
            assert forall|k: Seq<char>| #![trigger out.deep_view().contains(k)]
                out.deep_view().contains(k) <==> exists|j: int| 0 <= j < i + 1 && (#[trigger] bv[j]).from == k by {
                if out.deep_view().contains(k) && !before.contains(k) {
                    assert(bv[i as int].from == k);
                }
                if exists|j: int| 0 <= j < i + 1 && (#[trigger] bv[j]).from == k {
                    let j = choose|j: int| 0 <= j < i + 1 && (#[trigger] bv[j]).from == k;
                    if j == i {
                        if fresh {
                            assert(out.deep_view()[out.len() - 1] == k);
                        } else {
                            assert(before[before.len() - 1] == k);
                        }
                    } else {
                        assert(before.contains(k));
                        let w = choose|w: int| 0 <= w < before.len() && before[w] == k;
                        assert(out.deep_view()[w] == k);
                    }
                }
            }
            i += 1;
        }
        assert(out.deep_view().no_duplicates()) by {
            assert forall|a: int, b: int| 0 <= a < out.len() && 0 <= b < out.len() && a != b implies out.deep_view()[a] != out.deep_view()[b] by {
                if a < b {
                    crate::text::lemma_lex_total(out.deep_view()[a], out.deep_view()[b]);
                } else {
                    crate::text::lemma_lex_total(out.deep_view()[b], out.deep_view()[a]);
                }
            }
        }
        assert forall|k: Seq<char>| #![trigger out.deep_view().contains(k)]
            out.deep_view().contains(k) <==> exists|i: int| 0 <= i < all.len() && (#[trigger] all[i]).from == k by {
            if exists|j: int| 0 <= j < bv.len() && (#[trigger] bv[j]).from == k {
                let j = choose|j: int| 0 <= j < bv.len() && (#[trigger] bv[j]).from == k;
                assert(bv.contains(bv[j]));
                assert(all.to_multiset().count(bv[j]) > 0);
                let w = choose|w: int| 0 <= w < all.len() && all[w] == bv[j];
                assert(all[w].from == k);
            }
            if exists|i: int| 0 <= i < all.len() && (#[trigger] all[i]).from == k {
                let i = choose|i: int| 0 <= i < all.len() && (#[trigger] all[i]).from == k;
                assert(all.contains(all[i]));
                assert(bv.to_multiset().count(all[i]) > 0);
                let w = choose|w: int| 0 <= w < bv.len() && bv[w] == all[i];
                assert(bv[w].from == k);
            }
        }
        out
    }
}

} // verus!

verus! {

// ---------------------------------------------------------------- rename laws

/// A link target that needs no tidying to resolve and does not itself end in
/// `.md`.
pub open spec fn clean_link(t: Seq<char>) -> bool {
    t.len() > 0 && normalize_target_spec(t) == t && !ends_with(t, md_suffix())
}

proof fn lemma_after_last_none(s: Seq<char>, c: char, j: int)
    requires
        0 <= j <= s.len(),
        forall|k: int| 0 <= k < j ==> s[k] != c,
    ensures
        after_last(s, c, j) == 0,
    decreases j,
{
    if j > 0 {
        lemma_after_last_none(s, c, j - 1);
    }
}

/// The stem of a path has no `/`.
proof fn lemma_stem_no_slash(p: Seq<char>)
    ensures
        forall|k: int| 0 <= k < stem_spec(p).len() ==> stem_spec(p)[k] != '/',
{
    crate::text::lemma_after_last_bounds(p, '/', p.len() as int);
    let a = after_last(p, '/', p.len() as int);
    let f = file_name_spec(p);
    assert forall|k: int| 0 <= k < f.len() implies f[k] != '/' by {
        assert(f[k] == p[a + k]);
    }
}

/// After a rename, each rewritten link resolves to the renamed note: for a
/// link that resolved to `old_rel`, its new target (see
/// [`rename_replacement`]) resolves to `new_rel` once the index has dropped
/// `old_rel` and holds `new_rel`. This holds when `new_rel` is a `.md` path
/// whose path and stem, written as link targets, need no tidying, and when no
/// other note's stem lowercases (in full Unicode) like the new stem without
/// also matching it ignoring ASCII case.
pub proof fn law_rename_keeps_links_resolving(
    m: Map<Seq<char>, NoteEntryV>,
    old_rel: Seq<char>,
    new_rel: Seq<char>,
    e: NoteEntryV,
    from: Seq<char>,
    target: Seq<char>,
)
    requires
        resolves_to(m, target, from, Some(old_rel)),
        ends_with(new_rel, md_suffix()),
        clean_link(path_ref(new_rel)),
        clean_link(stem_spec(new_rel)),
        forall|k: Seq<char>|
            m.dom().contains(k) && k != old_rel && #[trigger] str_lowercase(stem_spec(k)) == str_lowercase(
                stem_spec(new_rel),
            ) ==> crate::text::eq_ignore_ascii_case(stem_spec(k), stem_spec(new_rel)),
    ensures
        resolves_to(
            m.remove(old_rel).insert(new_rel, e),
            rename_replacement(m, old_rel, new_rel, target),
            from,
            Some(new_rel),
        ),
{
    let m2 = m.remove(old_rel).insert(new_rel, e);
    let p = path_ref(new_rel);
    let st = stem_spec(new_rel);
    let md = md_suffix();
    assert(with_md(p) == new_rel) by {
        assert(new_rel.subrange(new_rel.len() - 3, new_rel.len() as int) == md);
        assert(p + md =~= new_rel);
    }
    assert(m2.dom().contains(new_rel));
    if rename_replacement(m, old_rel, new_rel, target) == p {
        assert(normalize_target_spec(p) == p);
    } else {
        assert(!new_stem_ambiguous(m, old_rel, new_rel));
        assert(rename_replacement(m, old_rel, new_rel, target) == st);
        lemma_stem_no_slash(new_rel);
        let n = st.len() as int;
        // the bare name the new stem resolves by is the stem itself
        assert(md_trim_end(st, n) == n) by {
            if 3 <= n && st.subrange(n - 3, n) == md {
                assert(ends_with(st, md));
            }
        }
        lemma_after_last_none(st, '/', n);
        assert(st.subrange(0, n) =~= st);
        assert(target_name(st) == st);
        let wm = st + md;
        assert(with_md(st) == wm);
        assert(forall|a: Seq<char>| crate::text::eq_ignore_ascii_case(a, a));
        if m2.dom().contains(wm) && wm != new_rel {
            assert(m.dom().contains(wm) && wm != old_rel);
            assert forall|k: int| 0 <= k < wm.len() implies wm[k] != '/' by {
                if k < n {
                    assert(wm[k] == st[k]);
                } else {
                    assert(wm[k] == md[k - n]);
                }
            }
            lemma_after_last_none(wm, '/', wm.len() as int);
            assert(wm.subrange(0, wm.len() as int) =~= wm);
            assert(file_name_spec(wm) == wm);
            assert(wm.subrange(wm.len() - 3, wm.len() as int) =~= md);
            assert(ends_with(wm, md));
            assert(wm.subrange(0, wm.len() - 3) =~= st);
            assert(stem_spec(wm) == st);
            assert(crate::text::eq_ignore_ascii_case(stem_spec(wm), st));
            assert(new_stem_ambiguous(m, old_rel, new_rel));
        }
        if !m2.dom().contains(wm) {
            let name = str_lowercase(st);
            assert(is_candidate(m2, name, new_rel));
            assert forall|k: Seq<char>| is_candidate(m2, name, k) implies !key_lt(k, new_rel, dir_spec(from)) by {
                lemma_key_lt_order(k, k, k, dir_spec(from));
                if k != new_rel {
                    assert(m.dom().contains(k) && k != old_rel);
                    assert(str_lowercase(stem_spec(k)) == str_lowercase(stem_spec(new_rel)));
                    assert(new_stem_ambiguous(m, old_rel, new_rel));
                }
            }
        }
    }
}

} // verus!

verus! {

// ---------------------------------------------------------------- write-back laws

proof fn lemma_count_nl_flat(s: Seq<char>, a: int, b: int)
    requires
        0 <= a <= b <= s.len(),
        forall|k: int| a <= k < b ==> s[k] != '\n',
    ensures
        crate::parse::count_nl(s, b) == crate::parse::count_nl(s, a),
    decreases b,
{
    if b > a {
        lemma_count_nl_flat(s, a, b - 1);
    }
}

proof fn lemma_count_nl_mono(s: Seq<char>, a: int, b: int)
    requires
        0 <= a <= b <= s.len(),
    ensures
        crate::parse::count_nl(s, a) <= crate::parse::count_nl(s, b),
    decreases b,
{
    if b > a {
        lemma_count_nl_mono(s, a, b - 1);
    }
}

proof fn lemma_line_start_flat(s: Seq<char>, pos: int, o: int)
    requires
        0 <= pos <= o <= s.len(),
        pos == 0 || s[pos - 1] == '\n',
        forall|k: int| pos <= k < o ==> s[k] != '\n',
    ensures
        crate::parse::line_start(s, o) == pos,
    decreases o,
{
    if o > pos {
        lemma_line_start_flat(s, pos, o - 1);
    }
}

/// Counting lines from the start of a line reaches the line holding `o`.
proof fn lemma_line_start_of_reaches(s: Seq<char>, pos: int, o: int)
    requires
        0 <= pos <= o <= s.len(),
        pos == 0 || s[pos - 1] == '\n',
    ensures
        line_start_of(s, pos, crate::parse::count_nl(s, o) - crate::parse::count_nl(s, pos) + 1)
            == Some(crate::parse::line_start(s, o)),
    decreases o - pos,
{
    crate::parse::lemma_first_of_bounds(s, '\n', pos);
    let nl = crate::parse::first_of(s, '\n', pos);
    if nl >= o {
        lemma_count_nl_flat(s, pos, o);
        lemma_line_start_flat(s, pos, o);
    } else {
        lemma_count_nl_flat(s, pos, nl);
        assert(crate::parse::count_nl(s, nl + 1) == crate::parse::count_nl(s, nl) + 1);
        lemma_count_nl_mono(s, nl + 1, o);
        lemma_line_start_of_reaches(s, nl + 1, o);
    }
}

proof fn lemma_first_of_is_line_end(s: Seq<char>, i: int)
    requires
        0 <= i <= s.len(),
    ensures
        crate::parse::first_of(s, '\n', i) == crate::parse::line_end(s, i),
    decreases s.len() - i,
{
    if i < s.len() && s[i] != '\n' {
        lemma_first_of_is_line_end(s, i + 1);
    }
}

proof fn lemma_trim_idem(x: Seq<char>)
    ensures
        trim(trim(x)) == trim(x),
{
    let t = trim(x);
    crate::text::lemma_trim_bounds(x);
    crate::text::lemma_lead_ws_bounds(x, 0);
    crate::text::lemma_trail_ws_bounds(x, x.len() as int);
    if t.len() > 0 {
        let a = crate::text::lead_ws(x, 0);
        let b = crate::text::trail_ws(x, x.len() as int);
        assert(t[0] == x[a]);
        assert(t[t.len() - 1] == x[b - 1]);
        assert(crate::text::lead_ws(t, 0) == 0);
        assert(crate::text::trail_ws(t, t.len() as int) == t.len());
        assert(t.subrange(0, t.len() as int) =~= t);
    } else {
        assert(t =~= Seq::<char>::empty());
    }
}

/// A task found at one marker re-verifies and toggles at write-back.
proof fn lemma_task_of_toggles(s: Seq<char>, m: (usize, bool))
    requires
        s.len() < usize::MAX,
    ensures
        crate::parse::task_of(s, m) matches Some(t) ==> (toggle_spec(s, t.line, t.text, t.done) matches Ok(
            (_, d),
        ) && d == !t.done),
{
    let ci = crate::parse::char_index_of_byte(s, m.0 as int);
    crate::parse::lemma_char_index_bounds(s, m.0 as int, 0);
    assert(crate::parse::min(ci, s.len() as int) == ci);
    lemma_line_start_of_reaches(s, 0, ci);
    assert(crate::parse::count_nl(s, 0) == 0);
    crate::parse::lemma_count_nl_bound(s, ci);
    crate::parse::lemma_line_bounds(s, ci);
    let st = crate::parse::line_start(s, ci);
    crate::parse::lemma_line_bounds(s, st);
    lemma_first_of_is_line_end(s, st);
    let l = s.subrange(st, crate::parse::line_end(s, st));
    match crate::parse::parse_task_line_spec(l) {
        Some((_, _, j)) => {
            lemma_trim_idem(l.subrange(j, l.len() as int));
        },
        None => {},
    }
}

proof fn lemma_tasks_upto_elems(s: Seq<char>, markers: Seq<(usize, bool)>, n: int)
    ensures
        forall|k: int|
            0 <= k < crate::parse::tasks_upto(s, markers, n).len() ==> exists|i: int|
                0 <= i < n && i < markers.len() && crate::parse::task_of(s, #[trigger] markers[i])
                    == Some(#[trigger] crate::parse::tasks_upto(s, markers, n)[k]),
    decreases n,
{
    if n > 0 && markers.len() >= n {
        lemma_tasks_upto_elems(s, markers, n - 1);
        let prev = crate::parse::tasks_upto(s, markers, n - 1);
        let cur = crate::parse::tasks_upto(s, markers, n);
        assert forall|k: int| 0 <= k < cur.len() implies exists|i: int|
            0 <= i < n && i < markers.len() && crate::parse::task_of(s, #[trigger] markers[i]) == Some(
                #[trigger] cur[k],
            ) by {
            if k < prev.len() {
                assert(cur[k] == prev[k]);
                let i = choose|i: int|
                    0 <= i < n - 1 && i < markers.len() && crate::parse::task_of(s, #[trigger] markers[i])
                        == Some(#[trigger] prev[k]);
                assert(crate::parse::task_of(s, markers[i]) == Some(cur[k]));
            } else {
                assert(crate::parse::task_of(s, markers[n - 1]) == Some(cur[k]));
            }
        }
    }
}

/// Every task found when a note is indexed re-verifies at write-back: toggling
/// its line with its text and done-state succeeds and flips the state.
pub proof fn law_indexed_task_toggles(content: Seq<char>, ev: Seq<(u8, u8, usize, usize, Seq<char>)>, k: int)
    requires
        content.len() < usize::MAX,
        0 <= k < crate::parse::parse_note_spec(content, ev).2.len(),
    ensures
        ({
            let t = crate::parse::parse_note_spec(content, ev).2[k];
            toggle_spec(content, t.line, t.text, t.done) matches Ok((_, d)) && d == !t.done
        }),
{
    let st = crate::markdown::md_structure(ev);
    let tasks = crate::parse::tasks_upto(content, st.markers, st.markers.len() as int);
    lemma_tasks_upto_elems(content, st.markers, st.markers.len() as int);
    assert(tasks.len() > k);
    let t = tasks[k];
    let i = choose|i: int|
        0 <= i < st.markers.len() && i < st.markers.len() && crate::parse::task_of(content, #[trigger] st.markers[i])
            == Some(#[trigger] tasks[k]);
    lemma_task_of_toggles(content, st.markers[i]);
}

} // verus!

verus! {

// ---------------------------------------------------------------- laws of links

/// A bare `[[name]]` with a candidate in the linking note's own folder
/// resolves to a note in that folder: a candidate elsewhere (a top-level note
/// included, when the linking note is in a subfolder) never wins over it.
pub proof fn law_same_folder_candidate_wins(
    m: Map<Seq<char>, NoteEntryV>,
    target: Seq<char>,
    from: Seq<char>,
    p: Seq<char>,
    k: Seq<char>,
)
    requires
        resolves_to(m, target, from, Some(p)),
        !m.dom().contains(with_md(normalize_target_spec(target))),
        m.dom().contains(k),
        str_lowercase(stem_spec(k)) == str_lowercase(target_name(normalize_target_spec(target))),
        dir_spec(k) == dir_spec(from),
    ensures
        dir_spec(p) == dir_spec(from),
{
    let name = str_lowercase(target_name(normalize_target_spec(target)));
    assert(is_candidate(m, name, k));
    assert(!key_lt(k, p, dir_spec(from)));
}

/// `first_of` finds the first occurrence.
proof fn lemma_first_of_at(s: Seq<char>, ch: char, c: int, k: int)
    requires
        0 <= k <= c <= s.len(),
        forall|j: int| 0 <= j < c ==> s[j] != ch,
        c < s.len() ==> s[c] == ch,
    ensures
        crate::parse::first_of(s, ch, k) == c,
    decreases c - k,
{
    if k < c {
        lemma_first_of_at(s, ch, c, k + 1);
    }
}

/// A rewritten link keeps everything after its target verbatim: with `c` the
/// first position inside the brackets holding `#` or `|`, the new link is
/// `[[` + the new target + the text from `c` on (its `#heading` and `|alias`)
/// + `]]`.
pub proof fn law_rewrite_keeps_heading_and_alias(
    m: Map<Seq<char>, NoteEntryV>,
    s: Seq<char>,
    code: Seq<(usize, usize)>,
    from: Seq<char>,
    old_rel: Seq<char>,
    new_rel: Seq<char>,
    i: int,
    close: int,
    c: int,
)
    requires
        0 <= i,
        i + 2 <= close <= s.len(),
        0 <= c <= close - (i + 2),
        forall|j: int| i + 2 <= j < i + 2 + c ==> s[j] != '#' && s[j] != '|',
        i + 2 + c < close ==> (s[i + 2 + c] == '#' || s[i + 2 + c] == '|'),
        rewrite_one(m, s, code, from, old_rel, new_rel, i, close) is Some,
    ensures
        rewrite_one(m, s, code, from, old_rel, new_rel, i, close)->Some_0 == seq!['[', '['] + rename_replacement(
            m,
            old_rel,
            new_rel,
            trim(s.subrange(i + 2, i + 2 + c)),
        ) + s.subrange(i + 2 + c, close) + seq![']', ']'],
{
    let inner = s.subrange(i + 2, close);
    let n = inner.len() as int;
    assert forall|j: int| 0 <= j < c implies inner[j] != '#' && inner[j] != '|' by {
        assert(inner[j] == s[i + 2 + j]);
    }
    crate::parse::lemma_first_of_bounds(inner, '|', 0);
    let bar = crate::parse::first_of(inner, '|', 0);
    if c < n && inner[c] == '|' {
        lemma_first_of_at(inner, '|', c, 0);
    }
    if c == n {
        lemma_first_of_at(inner, '|', c, 0);
    }
    assert(bar >= c) by {
        if bar < c {
            assert(inner[bar] == '|');
        }
    }
    let ba = inner.take(bar);
    assert forall|j: int| 0 <= j < c implies ba[j] != '#' by {
        assert(ba[j] == inner[j]);
    }
    if c < bar {
        assert(inner[c] == '#') by {
            assert(inner[c] != '|');
        }
        assert(ba[c] == '#');
    }
    lemma_first_of_at(ba, '#', c, 0);
    let (target, heading, alias) = link_parts(s, i, close);
    assert(inner.take(c) =~= s.subrange(i + 2, i + 2 + c));
    assert(ba.take(c) =~= inner.take(c));
    assert(target == trim(s.subrange(i + 2, i + 2 + c)));
    assert(heading + alias =~= inner.subrange(c, n));
    assert(inner.subrange(c, n) =~= s.subrange(i + 2 + c, close));
    assert(seq!['[', '['] + rename_replacement(m, old_rel, new_rel, target) + heading + alias + seq![']', ']']
        =~= seq!['[', '['] + rename_replacement(m, old_rel, new_rel, target) + (heading + alias) + seq![']', ']']);
}

} // verus!
