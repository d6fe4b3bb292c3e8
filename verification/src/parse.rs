//! Parsing one note's text: outgoing `[[wikilinks]]`, checkbox tasks with their
//! inline `#tags` and `📅` due dates, and the frontmatter `classification`.
//!
//! Positions are character indices into the note; the parser's code ranges
//! and task markers come as UTF-8 byte offsets and are mapped onto characters.
use crate::index::{Heading, LinkRef, LinkRefV, Task, TaskV};
use crate::markdown::{markdown_events, markdown_events_of, md_structure, note_structure, HeadingV, MdEvent};
use crate::text::{
    digit_value,
    chars_of, occurs_at_exec, find_exec, find_from, is_ascii_alnum, is_ascii_digit, is_whitespace, is_ws,
    lead_ws, lemma_find_from_bounds, lemma_lead_ws_bounds, occurs_at, slice_of, starts_with,
    string_of, trim, trim_bounds, trim_start,
};
use vstd::prelude::*;

verus! {

// ---------------------------------------------------------------- offsets

/// Number of bytes UTF-8 uses for `c`.
pub open spec fn char_width(c: char) -> int {
    if (c as u32) < 0x80 {
        1
    } else if (c as u32) < 0x800 {
        2
    } else if (c as u32) < 0x10000 {
        3
    } else {
        4
    }
}

/// UTF-8 byte offset of character `k` of `s`.
pub open spec fn byte_offset(s: Seq<char>, k: int) -> int
    decreases k,
{
    if k <= 0 || s.len() < k {
        0
    } else {
        byte_offset(s, k - 1) + char_width(s[k - 1])
    }
}

/// Index of the first character whose byte offset is at least `b`, searching
/// from `k` (the length if there is none).
pub open spec fn char_index_from(s: Seq<char>, b: int, k: int) -> int
    decreases s.len() - k,
{
    if k < 0 || k >= s.len() {
        s.len() as int
    } else if byte_offset(s, k) >= b {
        k
    } else {
        char_index_from(s, b, k + 1)
    }
}

/// The character at UTF-8 byte offset `b`.
pub open spec fn char_index_of_byte(s: Seq<char>, b: int) -> int {
    char_index_from(s, b, 0)
}

pub proof fn lemma_char_index_bounds(s: Seq<char>, b: int, k: int)
    requires
        0 <= k <= s.len(),
    ensures
        k <= char_index_from(s, b, k) <= s.len(),
    decreases s.len() - k,
{
    if k < s.len() && byte_offset(s, k) < b {
        lemma_char_index_bounds(s, b, k + 1);
    }
}

/// The byte offset of every character, plus the total length.
pub fn byte_offsets(v: &Vec<char>) -> (offs: Vec<u128>)
    ensures
        offs.len() == v.len() + 1,
        forall|k: int| 0 <= k <= v.len() ==> offs@[k] == byte_offset(v@, k),
{
    let mut offs: Vec<u128> = Vec::new();
    offs.push(0);
    let mut i: usize = 0;
    while i < v.len()
        invariant
            i <= v.len(),
            offs.len() == i + 1,
            forall|k: int| 0 <= k <= i ==> offs@[k] == byte_offset(v@, k),
            offs@[i as int] <= 4 * i,
        decreases v.len() - i,
    {
        let c = v[i];
        let w: u128 = if (c as u32) < 0x80 {
            1
        } else if (c as u32) < 0x800 {
            2
        } else if (c as u32) < 0x10000 {
            3
        } else {
            4
        };
        let last = offs[i];
        offs.push(last + w);
        i += 1;
    }
    offs
}

/// Is character `i` inside one of the code byte ranges?
pub open spec fn in_code(s: Seq<char>, code: Seq<(usize, usize)>, i: int) -> bool {
    exists|j: int|
        0 <= j < code.len() && (code[j].0 as int) <= byte_offset(s, i) && byte_offset(s, i) < (
        #[trigger] code[j]).1 as int
}

pub(crate) fn in_code_exec(v: &Vec<char>, offs: &Vec<u128>, code: &Vec<(usize, usize)>, i: usize) -> (r: bool)
    requires
        i <= v.len(),
        offs.len() == v.len() + 1,
        forall|k: int| 0 <= k <= v.len() ==> offs@[k] == byte_offset(v@, k),
    ensures
        r == in_code(v@, code@, i as int),
{
    let b = offs[i];
    let mut j: usize = 0;
    while j < code.len()
        invariant
            j <= code.len(),
            b == byte_offset(v@, i as int),
            forall|m: int|
                0 <= m < j ==> !((code@[m].0 as int) <= b && b < (#[trigger] code@[m]).1 as int),
        decreases code.len() - j,
    {
        let (s0, e0) = code[j];
        if (s0 as u128) <= b && b < (e0 as u128) {
            return true;
        }
        j += 1;
    }
    false
}

pub(crate) fn char_index_exec(v: &Vec<char>, offs: &Vec<u128>, b: usize) -> (k: usize)
    requires
        offs.len() == v.len() + 1,
        forall|k: int| 0 <= k <= v.len() ==> offs@[k] == byte_offset(v@, k),
    ensures
        k == char_index_of_byte(v@, b as int),
        k <= v.len(),
{
    let mut k: usize = 0;
    while k < v.len()
        invariant
            k <= v.len(),
            offs.len() == v.len() + 1,
            forall|m: int| 0 <= m <= v.len() ==> offs@[m] == byte_offset(v@, m),
            char_index_from(v@, b as int, k as int) == char_index_of_byte(v@, b as int),
        decreases v.len() - k,
    {
        if offs[k] >= b as u128 {
            return k;
        }
        k += 1;
    }
    k
}

// ---------------------------------------------------------------- lines

/// Newlines among the first `i` characters.
pub open spec fn count_nl(s: Seq<char>, i: int) -> int
    decreases i,
{
    if i <= 0 || s.len() < i {
        0
    } else {
        count_nl(s, i - 1) + if s[i - 1] == '\n' {
            1int
        } else {
            0int
        }
    }
}

pub proof fn lemma_count_nl_bound(s: Seq<char>, i: int)
    requires
        0 <= i <= s.len(),
    ensures
        0 <= count_nl(s, i) <= i,
    decreases i,
{
    if i > 0 {
        lemma_count_nl_bound(s, i - 1);
    }
}

pub open spec fn min(a: int, b: int) -> int {
    if a < b {
        a
    } else {
        b
    }
}

/// 1-based line number of character `offset`.
pub open spec fn line_of_spec(s: Seq<char>, offset: int) -> int {
    count_nl(s, min(offset, s.len() as int)) + 1
}

/// Start of the line holding position `i`.
pub open spec fn line_start(s: Seq<char>, i: int) -> int
    decreases i,
{
    if i <= 0 || s.len() < i {
        0
    } else if s[i - 1] == '\n' {
        i
    } else {
        line_start(s, i - 1)
    }
}

/// End (exclusive, at the newline or the end) of the line starting at `i`.
pub open spec fn line_end(s: Seq<char>, i: int) -> int
    decreases s.len() - i,
{
    if i < 0 || i >= s.len() {
        s.len() as int
    } else if s[i] == '\n' {
        i
    } else {
        line_end(s, i + 1)
    }
}

pub proof fn lemma_line_bounds(s: Seq<char>, i: int)
    requires
        0 <= i <= s.len(),
    ensures
        0 <= line_start(s, i) <= i,
        i <= line_end(s, i) <= s.len(),
    decreases s.len() - i,
{
    lemma_line_start_bound(s, i);
    if i < s.len() && s[i] != '\n' {
        lemma_line_bounds(s, i + 1);
    }
}

proof fn lemma_line_start_bound(s: Seq<char>, i: int)
    requires
        0 <= i <= s.len(),
    ensures
        0 <= line_start(s, i) <= i,
    decreases i,
{
    if i > 0 && s[i - 1] != '\n' {
        lemma_line_start_bound(s, i - 1);
    }
}

/// The full line holding character `offset`, as `[start, end)`.
pub open spec fn line_range(s: Seq<char>, offset: int) -> (int, int) {
    let st = line_start(s, min(offset, s.len() as int));
    (st, line_end(s, st))
}

pub open spec fn line_text_spec(s: Seq<char>, offset: int) -> Seq<char> {
    s.subrange(line_range(s, offset).0, line_range(s, offset).1)
}

pub(crate) fn line_of(v: &Vec<char>, offset: usize) -> (r: usize)
    requires
        v.len() < usize::MAX,
    ensures
        r == line_of_spec(v@, offset as int),
{
    let o = if offset < v.len() {
        offset
    } else {
        v.len()
    };
    let mut c: usize = 0;
    let mut k: usize = 0;
    while k < o
        invariant
            k <= o <= v.len() < usize::MAX,
            c == count_nl(v@, k as int),
            c <= k,
        decreases o - k,
    {
        if v[k] == '\n' {
            c += 1;
        }
        k += 1;
    }
    c + 1
}

pub(crate) fn line_bounds(v: &Vec<char>, offset: usize) -> (r: (usize, usize))
    ensures
        r.0 == line_range(v@, offset as int).0,
        r.1 == line_range(v@, offset as int).1,
        r.0 <= r.1 <= v.len(),
{
    let o = if offset < v.len() {
        offset
    } else {
        v.len()
    };
    let mut st = o;
    while st > 0 && v[st - 1] != '\n'
        invariant
            st <= o <= v.len(),
            o == min(offset as int, v@.len() as int),
            line_start(v@, st as int) == line_start(v@, o as int),
        decreases st,
    {
        st -= 1;
    }
    let mut e = st;
    while e < v.len() && v[e] != '\n'
        invariant
            st <= e <= v.len(),
            line_end(v@, e as int) == line_end(v@, st as int),
        decreases v.len() - e,
    {
        e += 1;
    }
    (st, e)
}

// ---------------------------------------------------------------- links

/// Position of the `]]` closing a link that starts scanning at `i`; a wiki
/// link never spans lines.
pub open spec fn find_close_spec(s: Seq<char>, i: int) -> Option<int>
    decreases s.len() - i,
{
    if i < 0 || i + 1 >= s.len() {
        None
    } else if s[i] == '\n' {
        None
    } else if s[i] == ']' && s[i + 1] == ']' {
        Some(i)
    } else {
        find_close_spec(s, i + 1)
    }
}

pub proof fn lemma_find_close_bounds(s: Seq<char>, i: int)
    requires
        0 <= i,
    ensures
        find_close_spec(s, i) matches Some(c) ==> i <= c && c + 1 < s.len() && s[c] == ']' && s[c
            + 1] == ']',
    decreases s.len() - i,
{
    if i + 1 < s.len() && s[i] != '\n' && !(s[i] == ']' && s[i + 1] == ']') {
        lemma_find_close_bounds(s, i + 1);
    }
}

pub(crate) fn find_close(v: &Vec<char>, from: usize) -> (r: Option<usize>)
    ensures
        r == (match find_close_spec(v@, from as int) {
            Some(c) => Some(c as usize),
            None => None::<usize>,
        }),
        r matches Some(c) ==> from <= c && c + 1 < v.len(),
{
    proof {
        lemma_find_close_bounds(v@, from as int);
    }
    let mut i = from;
    while i < v.len() && i + 1 < v.len()
        invariant
            from <= i,
            find_close_spec(v@, i as int) == find_close_spec(v@, from as int),
        decreases v.len() - i,
    {
        if v[i] == '\n' {
            return None;
        }
        if v[i] == ']' && v[i + 1] == ']' {
            return Some(i);
        }
        i += 1;
    }
    None
}

/// Index of the first `c` in `s` at or after `k` (the length if none).
pub open spec fn first_of(s: Seq<char>, c: char, k: int) -> int
    decreases s.len() - k,
{
    if k < 0 || k >= s.len() {
        s.len() as int
    } else if s[k] == c {
        k
    } else {
        first_of(s, c, k + 1)
    }
}

pub proof fn lemma_first_of_bounds(s: Seq<char>, c: char, k: int)
    requires
        0 <= k <= s.len(),
    ensures
        k <= first_of(s, c, k) <= s.len(),
        first_of(s, c, k) < s.len() ==> s[first_of(s, c, k)] == c,
        forall|m: int| k <= m < first_of(s, c, k) ==> s[m] != c,
    decreases s.len() - k,
{
    if k < s.len() && s[k] != c {
        lemma_first_of_bounds(s, c, k + 1);
    }
}

/// `first_of` on a suffix, seen from the whole sequence.
pub proof fn lemma_first_of_shift(s: Seq<char>, c: char, k: int)
    requires
        0 <= k <= s.len(),
    ensures
        k + first_of(s.subrange(k, s.len() as int), c, 0) == first_of(
            s,
            c,
            k,
        ),
{
    let t = s.subrange(k, s.len() as int);
    lemma_first_of_bounds(t, c, 0);
    lemma_first_of_bounds(s, c, k);
    let a = first_of(t, c, 0);
    let b = first_of(s, c, k);
    if k + a < b {
        assert(t[a] == s[k + a]);
    } else if b < k + a {
        assert(t[b - k] == s[b]);
    }
}

/// `from + first_of(v[from..to], c, 0)`.
pub(crate) fn find_char_in(v: &Vec<char>, c: char, from: usize, to: usize) -> (r: usize)
    requires
        from <= to <= v.len(),
    ensures
        r == from + first_of(v@.subrange(from as int, to as int), c, 0),
        from <= r <= to,
{
    let ghost sub = v@.subrange(from as int, to as int);
    proof {
        lemma_first_of_bounds(sub, c, 0);
    }
    let mut k = from;
    while k < to
        invariant
            from <= k <= to <= v.len(),
            sub == v@.subrange(from as int, to as int),
            first_of(sub, c, k - from) == first_of(sub, c, 0),
        decreases to - k,
    {
        assert(sub[k - from] == v@[k as int]);
        if v[k] == c {
            return k;
        }
        k += 1;
    }
    k
}

/// The link inside `[[...]]` opened at `i` and closed at `close`:
/// `target#heading|alias`, with the alias ignored.
pub open spec fn parse_link_spec(s: Seq<char>, i: int, close: int) -> Option<LinkRefV> {
    let inner = s.subrange(i + 2, close);
    let before_alias = inner.take(first_of(inner, '|', 0));
    let hash = first_of(before_alias, '#', 0);
    let target = trim(before_alias.take(hash));
    let heading = if hash < before_alias.len() {
        let h = trim(before_alias.subrange(hash + 1, before_alias.len() as int));
        if h.len() > 0 {
            Some(h)
        } else {
            None
        }
    } else {
        None
    };
    if target.len() == 0 {
        None
    } else {
        Some(
            LinkRefV {
                target,
                heading,
                line: line_of_spec(s, i) as usize,
                snippet: trim(line_text_spec(s, i)),
            },
        )
    }
}

/// Is the `[[` at `i` an embed (`![[...]]`)?
pub open spec fn is_embed(s: Seq<char>, i: int) -> bool {
    i > 0 && s[i - 1] == '!'
}

/// Outgoing links found scanning from `i`: `[[target#heading|alias]]`, skipping
/// embeds and anything inside code.
pub open spec fn scan_links_spec(s: Seq<char>, code: Seq<(usize, usize)>, i: int) -> Seq<LinkRefV>
    decreases s.len() - i,
{
    if i < 0 || i + 1 >= s.len() {
        Seq::empty()
    } else if s[i] == '[' && s[i + 1] == '[' {
        proof {
            lemma_find_close_bounds(s, i + 2);
        }
        match find_close_spec(s, i + 2) {
            Some(c) => {
                let here = if !is_embed(s, i) && !in_code(s, code, i) {
                    match parse_link_spec(s, i, c) {
                        Some(l) => seq![l],
                        None => Seq::empty(),
                    }
                } else {
                    Seq::empty()
                };
                here + scan_links_spec(s, code, c + 2)
            },
            None => scan_links_spec(s, code, i + 1),
        }
    } else {
        scan_links_spec(s, code, i + 1)
    }
}

fn parse_link(v: &Vec<char>, i: usize, close: usize) -> (r: Option<LinkRef>)
    requires
        i + 2 <= close,
        close < v.len(),
        v.len() < usize::MAX,
    ensures
        r.deep_view() == parse_link_spec(v@, i as int, close as int),
{
    let ghost inner = v@.subrange(i + 2, close as int);
    let bar = find_char_in(v, '|', i + 2, close);
    let ghost before_alias = inner.take(first_of(inner, '|', 0));
    assert(before_alias =~= v@.subrange(i + 2, bar as int));
    let hash = find_char_in(v, '#', i + 2, bar);
    let (ta, tb) = trim_bounds(v, i + 2, hash);
    assert(before_alias.take(first_of(before_alias, '#', 0)) =~= v@.subrange(i + 2, hash as int));
    if ta == tb {
        return None;
    }
    let target = string_of(v, ta, tb);
    let heading = if hash < bar {
        assert(before_alias.subrange(hash - (i + 2) + 1, before_alias.len() as int) =~= v@.subrange(
            hash + 1,
            bar as int,
        ));
        let (ha, hb) = trim_bounds(v, hash + 1, bar);
        if ha < hb {
            Some(string_of(v, ha, hb))
        } else {
            None
        }
    } else {
        None
    };
    let line = line_of(v, i);
    let (ls, le) = line_bounds(v, i);
    let (sa, sb) = trim_bounds(v, ls, le);
    let snippet = string_of(v, sa, sb);
    let r = Some(LinkRef { target, heading, line, snippet });
    assert(r.deep_view() =~= parse_link_spec(v@, i as int, close as int));
    r
}

fn scan_links(v: &Vec<char>, offs: &Vec<u128>, code: &Vec<(usize, usize)>) -> (links: Vec<LinkRef>)
    requires
        offs.len() == v.len() + 1,
        forall|k: int| 0 <= k <= v.len() ==> offs@[k] == byte_offset(v@, k),
        v.len() < usize::MAX,
    ensures
        links.deep_view() == scan_links_spec(v@, code@, 0),
{
    let mut links: Vec<LinkRef> = Vec::new();
    let mut i: usize = 0;
    while i < v.len() && i + 1 < v.len()
        invariant
            offs.len() == v.len() + 1,
            forall|k: int| 0 <= k <= v.len() ==> offs@[k] == byte_offset(v@, k),
            v.len() < usize::MAX,
            links.deep_view() + scan_links_spec(v@, code@, i as int) == scan_links_spec(
                v@,
                code@,
                0,
            ),
        decreases v.len() - i,
    {
        let ghost before = links.deep_view();
        if v[i] == '[' && v[i + 1] == '[' {
            match find_close(v, i + 2) {
                Some(close) => {
                    proof {
                        lemma_find_close_bounds(v@, i + 2);
                    }
                    assert(find_close_spec(v@, i + 2) == Some(close as int));
                    let embed = i > 0 && v[i - 1] == '!';
                    let code_here = in_code_exec(v, offs, code, i);
                    let ghost here: Seq<LinkRefV> = if !is_embed(v@, i as int) && !in_code(
                        v@,
                        code@,
                        i as int,
                    ) {
                        match parse_link_spec(v@, i as int, close as int) {
                            Some(l) => seq![l],
                            None => Seq::empty(),
                        }
                    } else {
                        Seq::empty()
                    };
                    assert(scan_links_spec(v@, code@, i as int) == here + scan_links_spec(
                        v@,
                        code@,
                        close + 2,
                    ));
                    if !embed && !code_here {
                        match parse_link(v, i, close) {
                            Some(l) => {
                                links.push(l);
                                assert(links.deep_view() =~= before + here);
                            },
                            None => {
                                assert(here =~= Seq::<LinkRefV>::empty());
                                assert(links.deep_view() =~= before + here);
                            },
                        }
                    } else {
                        assert(links.deep_view() =~= before + here);
                    }
                    assert(links.deep_view() + scan_links_spec(v@, code@, close + 2) =~= before
                        + scan_links_spec(v@, code@, i as int));
                    i = close + 2;
                },
                None => {
                    i += 1;
                },
            }
        } else {
            i += 1;
        }
    }
    assert(scan_links_spec(v@, code@, i as int) =~= Seq::<LinkRefV>::empty());
    assert(links.deep_view() =~= links.deep_view() + Seq::<LinkRefV>::empty());
    links
}


// ---------------------------------------------------------------- tasks

pub open spec fn is_blank(c: char) -> bool {
    c == ' ' || c == '\t'
}

/// Index of the first non-blank (space/tab) char at or after `i`.
pub open spec fn skip_blank(s: Seq<char>, i: int) -> int
    decreases s.len() - i,
{
    if 0 <= i < s.len() && is_blank(s[i]) {
        skip_blank(s, i + 1)
    } else {
        i
    }
}

pub proof fn lemma_skip_blank_bounds(s: Seq<char>, i: int)
    requires
        0 <= i <= s.len(),
    ensures
        i <= skip_blank(s, i) <= s.len(),
    decreases s.len() - i,
{
    if i < s.len() && is_blank(s[i]) {
        lemma_skip_blank_bounds(s, i + 1);
    }
}

/// A line as a Markdown checkbox task: a `-`/`*`/`+` bullet, blanks, then
/// `[ ]`, `[x]` or `[X]`. Gives the column of the status character, whether it
/// is done, and where the body starts (after one optional separator blank).
pub open spec fn parse_task_line_spec(l: Seq<char>) -> Option<(int, bool, int)> {
    let i0 = skip_blank(l, 0);
    if i0 >= l.len() || !(l[i0] == '-' || l[i0] == '*' || l[i0] == '+') {
        None
    } else if i0 + 1 >= l.len() || !is_blank(l[i0 + 1]) {
        None
    } else {
        let i2 = skip_blank(l, i0 + 1);
        if i2 + 2 >= l.len() || l[i2] != '[' || l[i2 + 2] != ']' {
            None
        } else if !(l[i2 + 1] == ' ' || l[i2 + 1] == 'x' || l[i2 + 1] == 'X') {
            None
        } else {
            let j = i2 + 3;
            let body = if j < l.len() && is_blank(l[j]) {
                j + 1
            } else {
                j
            };
            Some((i2 + 1, l[i2 + 1] != ' ', body))
        }
    }
}

fn skip_blank_exec(l: &Vec<char>, from: usize) -> (r: usize)
    requires
        from <= l.len(),
    ensures
        r == skip_blank(l@, from as int),
        from <= r <= l.len(),
{
    let mut i = from;
    while i < l.len() && (l[i] == ' ' || l[i] == '\t')
        invariant
            from <= i <= l.len(),
            skip_blank(l@, i as int) == skip_blank(l@, from as int),
        decreases l.len() - i,
    {
        i += 1;
    }
    i
}

/// [`parse_task_line_spec`] on a character vector.
pub fn parse_task_chars(l: &Vec<char>) -> (r: Option<(usize, bool, usize)>)
    ensures
        r == (match parse_task_line_spec(l@) {
            Some((c, d, j)) => Some((c as usize, d, j as usize)),
            None => None::<(usize, bool, usize)>,
        }),
        r matches Some((c, d, j)) ==> c < l.len() && j <= l.len(),
        parse_task_line_spec(l@) matches Some((c, d, j)) ==> 0 <= c < l.len() && 0 <= j <= l.len(),
{
    proof {
        lemma_skip_blank_bounds(l@, 0);
        let i0 = skip_blank(l@, 0);
        if i0 + 1 < l.len() {
            lemma_skip_blank_bounds(l@, i0 + 1);
        }
    }
    let i0 = skip_blank_exec(l, 0);
    if i0 >= l.len() || !(l[i0] == '-' || l[i0] == '*' || l[i0] == '+') {
        return None;
    }
    if i0 + 1 >= l.len() || !(l[i0 + 1] == ' ' || l[i0 + 1] == '\t') {
        return None;
    }
    let i2 = skip_blank_exec(l, i0 + 1);
    if i2 >= l.len() || l.len() - i2 <= 2 || l[i2] != '[' || l[i2 + 2] != ']' {
        return None;
    }
    let st = l[i2 + 1];
    if !(st == ' ' || st == 'x' || st == 'X') {
        return None;
    }
    let j = i2 + 3;
    let body = if j < l.len() && (l[j] == ' ' || l[j] == '\t') {
        j + 1
    } else {
        j
    };
    Some((i2 + 1, st != ' ', body))
}

/// Parse a single line as a Markdown checkbox task. Returns the column of the
/// status character (the one between the brackets), whether it is done, and
/// the task body (text after the marker). Returns `None` if the line is not a
/// `-`/`*`/`+` bullet followed by `[ ]`, `[x]`, or `[X]`.
///
/// Used both at index time and at write-back time, so the toggle re-verifies a
/// line against the exact rule that indexed it.
pub fn parse_task_line(line: &str) -> (r: Option<(usize, bool, &str)>)
    ensures
        match parse_task_line_spec(line@) {
            Some((c, d, j)) => r matches Some((c2, d2, b)) && c2 == c && d2 == d && b@
                == line@.subrange(j, line@.len() as int),
            None => r is None,
        },
{
    let l = chars_of(line);
    match parse_task_chars(&l) {
        Some((c, d, j)) => Some((c, d, line.substring_char(j, l.len()))),
        None => None,
    }
}

pub open spec fn is_word_char(c: char) -> bool {
    is_ascii_alnum(c) || c == '_'
}

pub open spec fn is_tag_char(c: char) -> bool {
    is_ascii_alnum(c) || c == '_' || c == '-' || c == '/'
}

pub open spec fn tag_end(b: Seq<char>, j: int) -> int
    decreases b.len() - j,
{
    if 0 <= j < b.len() && is_tag_char(b[j]) {
        tag_end(b, j + 1)
    } else {
        j
    }
}

pub proof fn lemma_tag_end_bounds(b: Seq<char>, j: int)
    requires
        0 <= j,
    ensures
        j <= tag_end(b, j),
        j <= b.len() ==> tag_end(b, j) <= b.len(),
    decreases b.len() - j,
{
    if 0 <= j < b.len() && is_tag_char(b[j]) {
        lemma_tag_end_bounds(b, j + 1);
    }
}

pub open spec fn has_non_digit(t: Seq<char>) -> bool {
    exists|k: int| 0 <= k < t.len() && !is_ascii_digit(#[trigger] t[k])
}

/// Inline `#tags` of a task body scanning from `i`: a `#` at a word boundary
/// followed by `[A-Za-z0-9_/-]`, containing at least one non-digit.
pub open spec fn tags_from(b: Seq<char>, i: int) -> Seq<Seq<char>>
    decreases b.len() - i,
{
    if i < 0 || i >= b.len() {
        Seq::empty()
    } else if b[i] == '#' && !(i > 0 && is_word_char(b[i - 1])) {
        proof {
            lemma_tag_end_bounds(b, i + 1);
        }
        let j = tag_end(b, i + 1);
        let t = b.subrange(i + 1, j);
        (if t.len() > 0 && has_non_digit(t) {
            seq![t]
        } else {
            Seq::empty()
        }) + tags_from(b, j)
    } else {
        tags_from(b, i + 1)
    }
}

fn is_tag_char_exec(c: char) -> (r: bool)
    ensures
        r == is_tag_char(c),
{
    ('0' <= c && c <= '9') || ('a' <= c && c <= 'z') || ('A' <= c && c <= 'Z') || c == '_' || c
        == '-' || c == '/'
}

fn is_word_char_exec(c: char) -> (r: bool)
    ensures
        r == is_word_char(c),
{
    ('0' <= c && c <= '9') || ('a' <= c && c <= 'z') || ('A' <= c && c <= 'Z') || c == '_'
}

/// Pull inline `#tags` from a task body (without the leading `#`). A tag starts
/// at a `#` that is at a word boundary, runs over `[A-Za-z0-9_/-]`, and must
/// contain at least one non-digit (so `#123` is not a tag).
pub fn extract_tags(b: &Vec<char>) -> (tags: Vec<String>)
    ensures
        tags.deep_view() == tags_from(b@, 0),
{
    let mut tags: Vec<String> = Vec::new();
    let mut i: usize = 0;
    while i < b.len()
        invariant
            i <= b.len(),
            tags.deep_view() + tags_from(b@, i as int) == tags_from(b@, 0),
        decreases b.len() - i,
    {
        let ghost before = tags.deep_view();
        if b[i] == '#' && !(i > 0 && is_word_char_exec(b[i - 1])) {
            proof {
                lemma_tag_end_bounds(b@, i + 1);
            }
            let start = i + 1;
            let mut j = start;
            while j < b.len() && is_tag_char_exec(b[j])
                invariant
                    start <= j <= b.len(),
                    tag_end(b@, j as int) == tag_end(b@, start as int),
                decreases b.len() - j,
            {
                j += 1;
            }
            let mut non_digit = false;
            let mut k = start;
            while k < j
                invariant
                    start <= k <= j <= b.len(),
                    non_digit == exists|m: int| start <= m < k && !is_ascii_digit(#[trigger] b@[m]),
                decreases j - k,
            {
                if !('0' <= b[k] && b[k] <= '9') {
                    non_digit = true;
                }
                k += 1;
            }
            let ghost t = b@.subrange(start as int, j as int);
            assert(non_digit == has_non_digit(t)) by {
                if non_digit {
                    let m = choose|m: int| start <= m < k && !is_ascii_digit(#[trigger] b@[m]);
                    assert(!is_ascii_digit(t[m - start]));
                }
                if has_non_digit(t) {
                    let m = choose|m: int| 0 <= m < t.len() && !is_ascii_digit(#[trigger] t[m]);
                    assert(!is_ascii_digit(b@[m + start]));
                }
            }
            if j > start && non_digit {
                tags.push(string_of(b, start, j));
            }
            assert(tags.deep_view() + tags_from(b@, j as int) =~= before + tags_from(b@, i as int));
            i = j;
        } else {
            i += 1;
        }
    }
    assert(tags_from(b@, i as int) =~= Seq::<Seq<char>>::empty());
    assert(tags.deep_view() =~= tags.deep_view() + Seq::<Seq<char>>::empty());
    tags
}


/// `YYYY-MM-DD` with plausible month/day ranges.
pub open spec fn iso_date_spec(s: Seq<char>) -> bool {
    &&& s.len() == 10
    &&& s[4] == '-'
    &&& s[7] == '-'
    &&& forall|k: int| 0 <= k < 10 && k != 4 && k != 7 ==> is_ascii_digit(#[trigger] s[k])
    &&& 1 <= digit_value(s[5]) * 10 + digit_value(s[6]) <= 12
    &&& 1 <= digit_value(s[8]) * 10 + digit_value(s[9]) <= 31
}

fn digit_of(c: char) -> (r: u32)
    requires
        '0' <= c <= '9',
    ensures
        r == digit_value(c),
        r <= 9,
{
    (c as u32) - 48
}

pub(crate) fn iso_date_chars(s: &Vec<char>) -> (r: bool)
    ensures
        r == iso_date_spec(s@),
{
    if s.len() != 10 || s[4] != '-' || s[7] != '-' {
        return false;
    }
    let mut k: usize = 0;
    while k < 10
        invariant
            s.len() == 10,
            k <= 10,
            forall|m: int| 0 <= m < k && m != 4 && m != 7 ==> is_ascii_digit(#[trigger] s@[m]),
        decreases 10 - k,
    {
        if k != 4 && k != 7 && !('0' <= s[k] && s[k] <= '9') {
            return false;
        }
        k += 1;
    }
    assert(is_ascii_digit(s@[5]) && is_ascii_digit(s@[6]) && is_ascii_digit(s@[8])
        && is_ascii_digit(s@[9]));
    let month = digit_of(s[5]) * 10 + digit_of(s[6]);
    let day = digit_of(s[8]) * 10 + digit_of(s[9]);
    1 <= month && month <= 12 && 1 <= day && day <= 31
}

/// True if `s` is exactly `YYYY-MM-DD` with plausible month/day ranges. Dates
/// in this form compare lexicographically in chronological order.
pub fn is_iso_date(s: &str) -> (r: bool)
    ensures
        r == iso_date_spec(s@),
{
    let v = chars_of(s);
    iso_date_chars(&v)
}

/// The inline due date `📅 YYYY-MM-DD` of a task body, if present.
pub open spec fn due_spec(b: Seq<char>) -> Option<Seq<char>> {
    let idx = first_of(b, '\u{1F4C5}', 0);
    if idx >= b.len() {
        None
    } else {
        let rest = trim_start(b.subrange(idx + 1, b.len() as int));
        let cand = rest.take(min(10, rest.len() as int));
        if iso_date_spec(cand) {
            Some(cand)
        } else {
            None
        }
    }
}

/// Pull an inline due date (`📅 YYYY-MM-DD`) from a task body, if present.
pub fn extract_due(b: &Vec<char>) -> (r: Option<String>)
    ensures
        r.deep_view() == due_spec(b@),
{
    let idx = find_char_in(b, '\u{1F4C5}', 0, b.len());
    assert(b@.subrange(0, b.len() as int) =~= b@);
    if idx >= b.len() {
        return None;
    }
    let mut a = idx + 1;
    let ghost rest0 = b@.subrange(idx + 1, b.len() as int);
    proof {
        lemma_lead_ws_bounds(rest0, 0);
    }
    while a < b.len() && is_whitespace(b[a])
        invariant
            idx + 1 <= a <= b.len(),
            rest0 == b@.subrange(idx + 1, b.len() as int),
            lead_ws(rest0, a - (idx + 1)) == lead_ws(rest0, 0),
        decreases b.len() - a,
    {
        assert(rest0[a - (idx + 1)] == b@[a as int]);
        a += 1;
    }
    proof {
        if a < b.len() {
            assert(rest0[a - (idx + 1)] == b@[a as int]);
        }
    }
    assert(trim_start(rest0) =~= b@.subrange(a as int, b.len() as int));
    let end = if b.len() - a < 10 {
        b.len()
    } else {
        a + 10
    };
    let cand = slice_of(b, a, end);
    assert(cand@ =~= trim_start(rest0).take(min(10, trim_start(rest0).len() as int)));
    if iso_date_chars(&cand) {
        let mut s = String::new();
        crate::text::push_all(&mut s, &cand);
        Some(s)
    } else {
        None
    }
}

/// The task (if any) on the line holding task marker `m`.
pub open spec fn task_of(s: Seq<char>, m: (usize, bool)) -> Option<TaskV> {
    let ci = char_index_of_byte(s, m.0 as int);
    let (ls, le) = line_range(s, ci);
    let l = s.subrange(ls, le);
    match parse_task_line_spec(l) {
        None => None,
        Some((_, done, j)) => {
            let body = l.subrange(j, l.len() as int);
            Some(
                TaskV {
                    text: trim(body),
                    done,
                    tags: tags_from(body, 0),
                    due: due_spec(body),
                    line: line_of_spec(s, ci) as usize,
                },
            )
        },
    }
}

/// Tasks for the first `n` markers.
pub open spec fn tasks_upto(s: Seq<char>, markers: Seq<(usize, bool)>, n: int) -> Seq<TaskV>
    decreases n,
{
    if n <= 0 || markers.len() < n {
        Seq::empty()
    } else {
        tasks_upto(s, markers, n - 1) + match task_of(s, markers[n - 1]) {
            Some(t) => seq![t],
            None => Seq::empty(),
        }
    }
}

fn scan_tasks(v: &Vec<char>, offs: &Vec<u128>, markers: &Vec<(usize, bool)>) -> (tasks: Vec<Task>)
    requires
        offs.len() == v.len() + 1,
        forall|k: int| 0 <= k <= v.len() ==> offs@[k] == byte_offset(v@, k),
        v.len() < usize::MAX,
    ensures
        tasks.deep_view() == tasks_upto(v@, markers@, markers@.len() as int),
{
    let mut tasks: Vec<Task> = Vec::new();
    let mut k: usize = 0;
    while k < markers.len()
        invariant
            k <= markers.len(),
            offs.len() == v.len() + 1,
            forall|m: int| 0 <= m <= v.len() ==> offs@[m] == byte_offset(v@, m),
            v.len() < usize::MAX,
            tasks.deep_view() == tasks_upto(v@, markers@, k as int),
        decreases markers.len() - k,
    {
        let ghost before = tasks.deep_view();
        let (b, _checked) = markers[k];
        let ci = char_index_exec(v, offs, b);
        let (ls, le) = line_bounds(v, ci);
        let l = slice_of(v, ls, le);
        match parse_task_chars(&l) {
            Some((_, done, j)) => {
                let body = slice_of(&l, j, l.len());
                let (ta, tb) = trim_bounds(&body, 0, body.len());
                assert(body@.subrange(0, body.len() as int) =~= body@);
                let text = string_of(&body, ta, tb);
                let tags = extract_tags(&body);
                let due = extract_due(&body);
                let line = line_of(v, ci);
                let t = Task { text, done, tags, due, line };
                proof {
                    let ghost lv = v@.subrange(ls as int, le as int);
                    assert(l@ == lv);
                    assert(parse_task_line_spec(lv) matches Some((_, dd, jj)) && dd == done && jj
                        == j);
                    assert(lv.subrange(j as int, lv.len() as int) == body@);
                    assert(t.deep_view().text == trim(body@));
                }
                tasks.push(t);
                assert(task_of(v@, markers@[k as int]) == Some(t.deep_view()));
                assert(tasks.deep_view() =~= before + seq![t.deep_view()]);
            },
            None => {
                assert(task_of(v@, markers@[k as int]) is None);
                assert(tasks.deep_view() =~= before + Seq::<TaskV>::empty());
            },
        }
        k += 1;
    }
    tasks
}

// ---------------------------------------------------------------- frontmatter

pub open spec fn is_quote(c: char) -> bool {
    c == '"' || c == '\''
}

pub open spec fn lead_q(s: Seq<char>, i: int) -> int
    decreases s.len() - i,
{
    if 0 <= i < s.len() && is_quote(s[i]) {
        lead_q(s, i + 1)
    } else {
        i
    }
}

pub open spec fn trail_q(s: Seq<char>, j: int) -> int
    decreases j,
{
    if 0 < j <= s.len() && is_quote(s[j - 1]) {
        trail_q(s, j - 1)
    } else {
        j
    }
}

/// `trim_matches` of double and single quotes.
pub open spec fn trim_quotes(s: Seq<char>) -> Seq<char> {
    if lead_q(s, 0) >= s.len() {
        Seq::empty()
    } else {
        s.subrange(lead_q(s, 0), trail_q(s, s.len() as int))
    }
}

/// The value after a `classification:` (or `classification :`) key on a
/// trimmed line.
pub open spec fn classification_key_value(t: Seq<char>) -> Option<Seq<char>> {
    if starts_with(t, "classification:"@) {
        Some(t.subrange("classification:"@.len() as int, t.len() as int))
    } else if starts_with(t, "classification :"@) {
        Some(t.subrange("classification :"@.len() as int, t.len() as int))
    } else {
        None
    }
}

/// The classification found in the lines of `block` starting at `st`: the
/// first line with the key decides (an empty value means none).
pub open spec fn classification_from(block: Seq<char>, st: int) -> Option<Seq<char>>
    decreases block.len() - st,
{
    if st < 0 || st > block.len() {
        None
    } else {
        let e = line_end(block, st);
        let t = trim(block.subrange(st, e));
        match classification_key_value(t) {
            Some(v) => {
                let val = trim(trim_quotes(trim(v)));
                if val.len() == 0 {
                    None
                } else {
                    Some(val)
                }
            },
            None => if st <= e < block.len() {
                classification_from(block, e + 1)
            } else {
                None
            },
        }
    }
}

/// The `classification:` value of a leading `---` frontmatter block.
pub open spec fn frontmatter_classification_spec(c: Seq<char>) -> Option<Seq<char>> {
    if !starts_with(c, "---\n"@) {
        None
    } else {
        let rest = c.subrange("---\n"@.len() as int, c.len() as int);
        let end = find_from(rest, "\n---"@, 0);
        if end >= rest.len() {
            None
        } else {
            classification_from(rest.take(end), 0)
        }
    }
}


fn is_quote_exec(c: char) -> (r: bool)
    ensures
        r == is_quote(c),
{
    c == '"' || c == '\''
}

/// `trim_quotes(t)` as a new vector.
fn trim_quotes_exec(t: &Vec<char>) -> (r: Vec<char>)
    ensures
        r@ == trim_quotes(t@),
{
    let mut a: usize = 0;
    while a < t.len() && is_quote_exec(t[a])
        invariant
            a <= t.len(),
            lead_q(t@, a as int) == lead_q(t@, 0),
        decreases t.len() - a,
    {
        a += 1;
    }
    if a == t.len() {
        return Vec::new();
    }
    assert(lead_q(t@, a as int) == a);
    let mut b: usize = t.len();
    while b > a + 1 && is_quote_exec(t[b - 1])
        invariant
            a < t.len(),
            a < b <= t.len(),
            !is_quote(t@[a as int]),
            trail_q(t@, b as int) == trail_q(t@, t.len() as int),
        decreases b,
    {
        b -= 1;
    }
    assert(b > a);
    assert(trail_q(t@, b as int) == b);
    slice_of(t, a, b)
}

/// `trim(v[from..to])` as a new vector.
pub(crate) fn trimmed(v: &Vec<char>, from: usize, to: usize) -> (r: Vec<char>)
    requires
        from <= to <= v.len(),
    ensures
        r@ == trim(v@.subrange(from as int, to as int)),
{
    let (a, b) = trim_bounds(v, from, to);
    slice_of(v, a, b)
}

fn classification_in(block: &Vec<char>) -> (r: Option<String>)
    ensures
        r.deep_view() == classification_from(block@, 0),
{
    let k1 = chars_of("classification:");
    let k2 = chars_of("classification :");
    let mut st: usize = 0;
    while st <= block.len()
        invariant
            st <= block.len() + 1,
            k1@ == "classification:"@,
            k2@ == "classification :"@,
            classification_from(block@, st as int) == classification_from(block@, 0),
        decreases block.len() + 1 - st,
    {
        let mut e = st;
        while e < block.len() && block[e] != '\n'
            invariant
                st <= e <= block.len(),
                line_end(block@, e as int) == line_end(block@, st as int),
            decreases block.len() - e,
        {
            e += 1;
        }
        let t = trimmed(block, st, e);
        let v = if occurs_at_exec(&t, &k1, 0) {
            Some(slice_of(&t, k1.len(), t.len()))
        } else if occurs_at_exec(&t, &k2, 0) {
            Some(slice_of(&t, k2.len(), t.len()))
        } else {
            None
        };
        assert(v.deep_view() == classification_key_value(t@));
        match v {
            Some(val) => {
                let t1 = trimmed(&val, 0, val.len());
                assert(val@.subrange(0, val.len() as int) =~= val@);
                let t2 = trim_quotes_exec(&t1);
                let t3 = trimmed(&t2, 0, t2.len());
                assert(t2@.subrange(0, t2.len() as int) =~= t2@);
                if t3.len() == 0 {
                    return None;
                }
                let mut out = String::new();
                crate::text::push_all(&mut out, &t3);
                return Some(out);
            },
            None => {
                if e < block.len() {
                    st = e + 1;
                } else {
                    return None;
                }
            },
        }
    }
    None
}

/// Read the `classification:` value from a leading YAML frontmatter block.
/// Intentionally minimal — a line scan, not a full YAML parse — since the
/// field is a UX marker, not a real Purview label. Returns the trimmed,
/// unquoted value, or `None` if there is no frontmatter or no such key.
pub fn parse_frontmatter_classification(content: &str) -> (r: Option<String>)
    ensures
        r.deep_view() == frontmatter_classification_spec(content@),
{
    let c = chars_of(content);
    let pre = chars_of("---\n");
    if !occurs_at_exec(&c, &pre, 0) {
        return None;
    }
    let rest = slice_of(&c, pre.len(), c.len());
    let pat = chars_of("\n---");
    let end = find_exec(&rest, &pat, 0);
    if end >= rest.len() {
        return None;
    }
    proof {
        lemma_find_from_bounds(rest@, pat@, 0);
    }
    let block = slice_of(&rest, 0, end);
    assert(block@ =~= rest@.take(end as int));
    classification_in(&block)
}

// ---------------------------------------------------------------- whole note

/// The headings, outgoing links and tasks of a note whose parser event stream
/// is `ev`.
pub open spec fn parse_note_spec(content: Seq<char>, ev: Seq<(u8, u8, usize, usize, Seq<char>)>) -> (
    Seq<HeadingV>,
    Seq<LinkRefV>,
    Seq<TaskV>,
) {
    let st = md_structure(ev);
    (st.headings, scan_links_spec(content, st.code, 0), tasks_upto(content, st.markers, st.markers.len() as int))
}

/// Headings, outgoing links and tasks of `content`, given the parser's event
/// stream for it. `[[...]]` inside code spans/blocks and `![[embeds]]` are
/// excluded, and task markers only come from real list items.
pub fn note_from_events(content: &str, events: &Vec<MdEvent>) -> (r: (Vec<Heading>, Vec<LinkRef>, Vec<Task>))
    requires
        content@.len() < usize::MAX,
    ensures
        (r.0.deep_view(), r.1.deep_view(), r.2.deep_view()) == parse_note_spec(content@, events.deep_view()),
{
    let v = chars_of(content);
    let offs = byte_offsets(&v);
    let st = note_structure(events);
    let links = scan_links(&v, &offs, &st.code);
    let tasks = scan_tasks(&v, &offs, &st.markers);
    (st.headings, links, tasks)
}

/// Parse a note's LF-normalized `content` into its headings, outgoing links, and
/// tasks.
pub fn parse_note(content: &str) -> (r: (Vec<Heading>, Vec<LinkRef>, Vec<Task>))
    requires
        content@.len() < usize::MAX,
    ensures
        (r.0.deep_view(), r.1.deep_view(), r.2.deep_view()) == parse_note_spec(content@, markdown_events(content@)),
{
    let events = markdown_events_of(content);
    note_from_events(content, &events)
}

} // verus!

verus! {

// ---------------------------------------------------------------- laws of tags

proof fn lemma_tag_end_runs_out(b: Seq<char>, j: int)
    requires
        1 <= j <= b.len(),
        forall|k: int| 1 <= k < b.len() ==> is_tag_char(#[trigger] b[k]),
    ensures
        tag_end(b, j) == b.len(),
    decreases b.len() - j,
{
    if j < b.len() {
        lemma_tag_end_runs_out(b, j + 1);
    }
}

/// A tag runs over every character of `[A-Za-z0-9_/-]` after its `#`: a body
/// that is `#` followed by such characters, not all digits, has exactly that
/// one tag (so `-` and `/` do not end a tag).
pub proof fn law_tag_takes_the_whole_word(t: Seq<char>)
    requires
        t.len() > 0,
        forall|k: int|
            0 <= k < t.len() ==> ('a' <= #[trigger] t[k] <= 'z' || 'A' <= t[k] <= 'Z' || '0' <= t[k] <= '9' || t[k]
                == '_' || t[k] == '-' || t[k] == '/'),
        exists|k: int| 0 <= k < t.len() && !('0' <= #[trigger] t[k] <= '9'),
    ensures
        tags_from(seq!['#'] + t, 0) == seq![t],
{
    let b = seq!['#'] + t;
    assert forall|k: int| 1 <= k < b.len() implies is_tag_char(#[trigger] b[k]) by {
        assert(b[k] == t[k - 1]);
    }
    lemma_tag_end_runs_out(b, 1);
    assert(b.subrange(1, b.len() as int) =~= t);
    let w = choose|k: int| 0 <= k < t.len() && !('0' <= #[trigger] t[k] <= '9');
    assert(!is_ascii_digit(t[w]));
    assert(has_non_digit(t));
    assert(tags_from(b, b.len() as int) =~= Seq::<Seq<char>>::empty());
    assert(b[0] == '#');
    assert(seq![t] + Seq::<Seq<char>>::empty() =~= seq![t]);
}

} // verus!
