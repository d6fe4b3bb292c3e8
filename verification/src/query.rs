//! Task-query language — the **frozen v1 grammar**. A fenced ` ```query `
//! block holds line-oriented directives; this module parses them into a
//! [`Query`] and runs it over the in-memory task index.
//!
//! Filters combine with AND only; there is no OR, no grouping, no priority,
//! and no start/scheduled dates. An unknown or malformed directive yields a
//! clear `Err(String)` — never a panic.
//!
//! Dates are the fixed-width `YYYY-MM-DD` form, so lexical string comparison is
//! also chronological comparison. `today` is the caller's *local* date, passed
//! in, never read from a clock here.
use crate::index::{Index, NoteEntry, NoteEntryV, Task, TaskV};
use crate::parse::{iso_date_chars, iso_date_spec};
use crate::text::{digit_value, digits_value};
use crate::text::{
    chars_of, contains_char, contains_sub, contains_sub_exec, copy_opt_string, copy_string,
    copy_strings, str_eq,
    str_eq_ignore_ascii_case, str_lt, to_lowercase, eq_ignore_ascii_case, is_ascii_digit, is_whitespace,
    is_ws, lead_ws, lex_lt, occurs_at_exec, push_all, push_str, slice_of, starts_with, str_lowercase,
    string_from_vec, trim, trim_bounds, trim_vec,
};
use vstd::prelude::*;

verus! {

/// A due-date comparison.
#[derive(Debug, PartialEq, Eq, Clone, Copy)]
pub enum DueCmp {
    Before,
    After,
    On,
}

/// A date argument: a literal `YYYY-MM-DD`, or `today`.
#[derive(Debug, PartialEq, Eq, Clone)]
pub enum DateSpec {
    Date(String),
    Today,
}

#[derive(Debug, PartialEq, Eq, Clone, Copy)]
pub enum SortKey {
    Due,
    Path,
}

#[derive(Debug, PartialEq, Eq, Clone, Copy)]
pub enum SortDir {
    Asc,
    Desc,
}

/// One filter directive.
#[derive(Debug, PartialEq, Eq, Clone)]
pub enum Filter {
    Done(bool),
    PathStartsWith(String),
    PathIncludes(String),
    Tag(String),
    TextIncludes(String),
    Due(DueCmp, DateSpec),
    NoDue,
    HasDue,
    Classification(String),
}

pub enum DateSpecV {
    Date(Seq<char>),
    Today,
}

pub enum FilterV {
    Done(bool),
    PathStartsWith(Seq<char>),
    PathIncludes(Seq<char>),
    Tag(Seq<char>),
    TextIncludes(Seq<char>),
    Due(DueCmp, DateSpecV),
    NoDue,
    HasDue,
    Classification(Seq<char>),
}

impl DeepView for Filter {
    type V = FilterV;

    open spec fn deep_view(&self) -> FilterV {
        match self {
            Filter::Done(b) => FilterV::Done(*b),
            Filter::PathStartsWith(s) => FilterV::PathStartsWith(s@),
            Filter::PathIncludes(s) => FilterV::PathIncludes(s@),
            Filter::Tag(s) => FilterV::Tag(s@),
            Filter::TextIncludes(s) => FilterV::TextIncludes(s@),
            Filter::Due(c, DateSpec::Date(d)) => FilterV::Due(*c, DateSpecV::Date(d@)),
            Filter::Due(c, DateSpec::Today) => FilterV::Due(*c, DateSpecV::Today),
            Filter::NoDue => FilterV::NoDue,
            Filter::HasDue => FilterV::HasDue,
            Filter::Classification(s) => FilterV::Classification(s@),
        }
    }
}

/// A parsed, ready-to-run query.
#[derive(Debug, Default, PartialEq)]
pub struct Query {
    pub filters: Vec<Filter>,
    pub sort: Option<(SortKey, SortDir)>,
    pub limit: Option<usize>,
}

pub struct QueryV {
    pub filters: Seq<FilterV>,
    pub sort: Option<(SortKey, SortDir)>,
    pub limit: Option<usize>,
}

impl DeepView for Query {
    type V = QueryV;

    open spec fn deep_view(&self) -> QueryV {
        QueryV { filters: self.filters.deep_view(), sort: self.sort, limit: self.limit }
    }
}

/// The meaning of one directive line.
pub enum DirectiveV {
    Filter(FilterV),
    Sort(SortKey, SortDir),
    Limit(usize),
}

// ---------------------------------------------------------------- words & numbers

/// End of the run of non-whitespace starting at `i`.
pub open spec fn word_end(s: Seq<char>, i: int) -> int
    decreases s.len() - i,
{
    if 0 <= i < s.len() && !is_ws(s[i]) {
        word_end(s, i + 1)
    } else {
        i
    }
}

pub proof fn lemma_word_end_bounds(s: Seq<char>, i: int)
    requires
        0 <= i <= s.len(),
    ensures
        i <= word_end(s, i) <= s.len(),
        i < s.len() && !is_ws(s[i]) ==> i < word_end(s, i),
    decreases s.len() - i,
{
    if i < s.len() && !is_ws(s[i]) {
        lemma_word_end_bounds(s, i + 1);
    }
}

/// `str::split_whitespace` from position `i`.
pub open spec fn words_from(s: Seq<char>, i: int) -> Seq<Seq<char>>
    decreases s.len() - i,
{
    if i < 0 || i > s.len() {
        Seq::empty()
    } else {
        proof {
            crate::text::lemma_lead_ws_bounds(s, i);
            crate::query::lemma_word_end_bounds(s, lead_ws(s, i));
        }
        let a = lead_ws(s, i);
        if a >= s.len() {
            Seq::empty()
        } else {
            let b = word_end(s, a);
            seq![s.subrange(a, b)] + words_from(s, b)
        }
    }
}

pub open spec fn words(s: Seq<char>) -> Seq<Seq<char>> {
    words_from(s, 0)
}

fn words_exec(v: &Vec<char>) -> (r: Vec<Vec<char>>)
    ensures
        r.deep_view() == words(v@),
{
    let mut out: Vec<Vec<char>> = Vec::new();
    let mut i: usize = 0;
    while i < v.len()
        invariant
            i <= v.len(),
            out.deep_view() + words_from(v@, i as int) == words(v@),
        decreases v.len() - i,
    {
        proof {
            crate::text::lemma_lead_ws_bounds(v@, i as int);
        }
        let mut a = i;
        while a < v.len() && is_whitespace(v[a])
            invariant
                i <= a <= v.len(),
                lead_ws(v@, a as int) == lead_ws(v@, i as int),
            decreases v.len() - a,
        {
            a += 1;
        }
        if a >= v.len() {
            assert(words_from(v@, i as int) =~= Seq::<Seq<char>>::empty());
            i = v.len();
            assert(words_from(v@, i as int) =~= Seq::<Seq<char>>::empty());
        } else {
            proof {
                lemma_word_end_bounds(v@, a as int);
            }
            let mut b = a;
            while b < v.len() && !is_whitespace(v[b])
                invariant
                    a <= b <= v.len(),
                    word_end(v@, b as int) == word_end(v@, a as int),
                decreases v.len() - b,
            {
                b += 1;
            }
            let ghost before = out.deep_view();
            let ghost before_v = out@;
            let w = slice_of(v, a, b);
            assert(w.deep_view() =~= w@);
            out.push(w);
            assert(out.deep_view() =~= before + seq![v@.subrange(a as int, b as int)]) by {
                assert(out@ == before_v.push(w));
                assert forall|j: int| 0 <= j < out.len() implies #[trigger] out.deep_view()[j]
                    == (before + seq![v@.subrange(a as int, b as int)])[j] by {
                    if j < before.len() {
                        assert(out@[j] == before_v[j]);
                    }
                }
            }
            assert(words_from(v@, i as int) == seq![v@.subrange(a as int, b as int)] + words_from(v@, b as int));
            assert(out.deep_view() + words_from(v@, b as int) =~= before + words_from(v@, i as int));
            i = b;
        }
    }
    proof {
        if i == v.len() {
            crate::text::lemma_lead_ws_bounds(v@, i as int);
        }
    }
    assert(words_from(v@, i as int) =~= Seq::<Seq<char>>::empty());
    assert(out.deep_view() =~= out.deep_view() + Seq::<Seq<char>>::empty());
    out
}

/// The digits part of a `usize` literal: the text after an optional `+`.
pub open spec fn usize_digits(s: Seq<char>) -> Seq<char> {
    if s.len() > 0 && s[0] == '+' {
        s.subrange(1, s.len() as int)
    } else {
        s
    }
}

pub open spec fn all_digits(d: Seq<char>) -> bool {
    forall|k: int| 0 <= k < d.len() ==> is_ascii_digit(#[trigger] d[k])
}

/// `usize::from_str`: an optional `+`, then at least one ASCII digit, with a
/// value that fits.
pub open spec fn parse_usize_spec(s: Seq<char>) -> Option<usize> {
    let d = usize_digits(s);
    if d.len() > 0 && all_digits(d) && digits_value(d) <= usize::MAX {
        Some(digits_value(d) as usize)
    } else {
        None
    }
}

proof fn lemma_digits_value_prefix(d: Seq<char>, k: int)
    requires
        0 <= k <= d.len(),
        forall|m: int| 0 <= m < d.len() ==> is_ascii_digit(#[trigger] d[m]),
    ensures
        digits_value(d.take(k)) <= digits_value(d),
    decreases d.len() - k,
{
    if k < d.len() {
        lemma_digits_value_prefix(d, k + 1);
        let t = d.take(k + 1);
        assert(t.drop_last() =~= d.take(k));
        assert(t.last() == d[k]);
        assert(is_ascii_digit(d[k]));
        assert(digits_value(t) == digits_value(d.take(k)) * 10 + digit_value(d[k]));
    } else {
        assert(d.take(k) =~= d);
    }
}

fn parse_usize(s: &Vec<char>) -> (r: Option<usize>)
    ensures
        r == parse_usize_spec(s@),
{
    let start: usize = if s.len() > 0 && s[0] == '+' {
        1
    } else {
        0
    };
    let d = slice_of(s, start, s.len());
    assert(d@ =~= usize_digits(s@));
    if d.len() == 0 {
        return None;
    }
    let mut v: usize = 0;
    let mut k: usize = 0;
    while k < d.len()
        invariant
            k <= d.len(),
            d@ == usize_digits(s@),
            forall|m: int| 0 <= m < k ==> is_ascii_digit(#[trigger] d@[m]),
            v == digits_value(d@.take(k as int)),
        decreases d.len() - k,
    {
        let c = d[k];
        if !('0' <= c && c <= '9') {
            assert(!is_ascii_digit(d@[k as int]));
            assert(!all_digits(d@));
            return None;
        }
        let ghost t = d@.take(k + 1);
        assert(t.drop_last() =~= d@.take(k as int));
        assert(t.last() == c);
        let dv = (c as u32 - 48) as usize;
        assert(dv == digit_value(c));
        assert(digits_value(t) == v * 10 + dv);
        let next = match v.checked_mul(10) {
            Some(m) => m.checked_add(dv),
            None => None,
        };
        match next {
            Some(n) => {
                v = n;
            },
            None => {
                proof {
                    if all_digits(d@) {
                        lemma_digits_value_prefix(d@, k + 1);
                    }
                }
                return None;
            },
        }
        k += 1;
    }
    assert(d@.take(d.len() as int) =~= d@);
    Some(v)
}


// ---------------------------------------------------------------- directives

/// One parsed directive line.
pub enum Directive {
    Filter(Filter),
    Sort(SortKey, SortDir),
    Limit(usize),
}

impl DeepView for Directive {
    type V = DirectiveV;

    open spec fn deep_view(&self) -> DirectiveV {
        match self {
            Directive::Filter(f) => DirectiveV::Filter(f.deep_view()),
            Directive::Sort(k, d) => DirectiveV::Sort(*k, *d),
            Directive::Limit(n) => DirectiveV::Limit(*n),
        }
    }
}

/// `s` with the prefix `p` removed, when `s` starts with `p`.
pub open spec fn strip_prefix(s: Seq<char>, p: Seq<char>) -> Option<Seq<char>> {
    if starts_with(s, p) {
        Some(s.subrange(p.len() as int, s.len() as int))
    } else {
        None
    }
}

/// A `"..."` argument: the whole trimmed remainder is one quoted string with
/// no inner quote.
pub open spec fn quoted_spec(rest: Seq<char>) -> Result<Seq<char>, Seq<char>> {
    let t = trim(rest);
    if t.len() >= 2 && t[0] == '"' && t[t.len() - 1] == '"' && !t.subrange(
        1,
        t.len() - 1,
    ).contains('"') {
        Ok(t.subrange(1, t.len() - 1))
    } else {
        Err("expected a quoted \"value\", got: "@ + rest)
    }
}

pub open spec fn has_ws(s: Seq<char>) -> bool {
    exists|k: int| 0 <= k < s.len() && is_ws(#[trigger] s[k])
}

/// `tag #name`, where `rest` follows `tag `.
pub open spec fn tag_spec(line: Seq<char>, rest: Seq<char>) -> Result<FilterV, Seq<char>> {
    let t = trim(rest);
    if t.len() == 0 || t[0] != '#' {
        Err("tag must start with '#': "@ + line)
    } else {
        let name = t.subrange(1, t.len() as int);
        if name.len() == 0 || has_ws(name) {
            Err("invalid tag: "@ + line)
        } else {
            Ok(FilterV::Tag(name))
        }
    }
}

/// `classification is <label>`, where `rest` follows `classification is `.
pub open spec fn classification_spec(line: Seq<char>, rest: Seq<char>) -> Result<FilterV, Seq<char>> {
    if trim(rest).len() == 0 {
        Err("classification needs a label: "@ + line)
    } else {
        Ok(FilterV::Classification(trim(rest)))
    }
}

pub open spec fn due_op_of(w: Seq<char>) -> Option<DueCmp> {
    if w == "before"@ {
        Some(DueCmp::Before)
    } else if w == "after"@ {
        Some(DueCmp::After)
    } else if w == "on"@ {
        Some(DueCmp::On)
    } else {
        None
    }
}

/// `due before|after|on <date>`, where `rest` follows `due `.
pub open spec fn due_directive_spec(rest: Seq<char>) -> Result<FilterV, Seq<char>> {
    let ws = words(rest);
    if ws.len() == 0 || due_op_of(ws[0]) is None {
        Err("due needs before|after|on: due "@ + rest)
    } else if ws.len() == 1 {
        Err("due needs a date: due "@ + rest)
    } else if ws[1] != "today"@ && !iso_date_spec(ws[1]) {
        Err("invalid date '"@ + ws[1] + "' (use YYYY-MM-DD or today)"@)
    } else if ws.len() > 2 {
        Err("too many words in: due "@ + rest)
    } else {
        let date = if ws[1] == "today"@ {
            DateSpecV::Today
        } else {
            DateSpecV::Date(ws[1])
        };
        Ok(FilterV::Due(due_op_of(ws[0]).unwrap(), date))
    }
}

pub open spec fn sort_key_of(w: Seq<char>) -> Option<SortKey> {
    if w == "due"@ {
        Some(SortKey::Due)
    } else if w == "path"@ {
        Some(SortKey::Path)
    } else {
        None
    }
}

/// `sort by due|path [asc|desc]`, where `rest` follows `sort by `.
pub open spec fn sort_spec(rest: Seq<char>) -> Result<DirectiveV, Seq<char>> {
    let ws = words(rest);
    if ws.len() == 0 || sort_key_of(ws[0]) is None {
        Err("sort by needs due|path: sort by "@ + rest)
    } else if ws.len() >= 2 && ws[1] != "asc"@ && ws[1] != "desc"@ {
        Err("sort direction must be asc|desc: "@ + ws[1])
    } else if ws.len() > 2 {
        Err("too many words in: sort by "@ + rest)
    } else {
        let dir = if ws.len() == 2 && ws[1] == "desc"@ {
            SortDir::Desc
        } else {
            SortDir::Asc
        };
        Ok(DirectiveV::Sort(sort_key_of(ws[0]).unwrap(), dir))
    }
}

pub open spec fn filter_of(r: Result<FilterV, Seq<char>>) -> Result<DirectiveV, Seq<char>> {
    match r {
        Ok(f) => Ok(DirectiveV::Filter(f)),
        Err(e) => Err(e),
    }
}

/// One trimmed, non-empty directive line.
pub open spec fn parse_line_spec(l: Seq<char>) -> Result<DirectiveV, Seq<char>> {
    if l == "done"@ {
        Ok(DirectiveV::Filter(FilterV::Done(true)))
    } else if l == "not done"@ {
        Ok(DirectiveV::Filter(FilterV::Done(false)))
    } else if l == "no due"@ {
        Ok(DirectiveV::Filter(FilterV::NoDue))
    } else if l == "has due"@ {
        Ok(DirectiveV::Filter(FilterV::HasDue))
    } else if l == "due today"@ {
        Ok(DirectiveV::Filter(FilterV::Due(DueCmp::On, DateSpecV::Today)))
    } else if strip_prefix(l, "path startswith "@) is Some {
        match quoted_spec(strip_prefix(l, "path startswith "@).unwrap()) {
            Ok(v) => Ok(DirectiveV::Filter(FilterV::PathStartsWith(v))),
            Err(e) => Err(e),
        }
    } else if strip_prefix(l, "path includes "@) is Some {
        match quoted_spec(strip_prefix(l, "path includes "@).unwrap()) {
            Ok(v) => Ok(DirectiveV::Filter(FilterV::PathIncludes(v))),
            Err(e) => Err(e),
        }
    } else if strip_prefix(l, "text includes "@) is Some {
        match quoted_spec(strip_prefix(l, "text includes "@).unwrap()) {
            Ok(v) => Ok(DirectiveV::Filter(FilterV::TextIncludes(v))),
            Err(e) => Err(e),
        }
    } else if strip_prefix(l, "tag "@) is Some {
        filter_of(tag_spec(l, strip_prefix(l, "tag "@).unwrap()))
    } else if strip_prefix(l, "classification is "@) is Some {
        filter_of(classification_spec(l, strip_prefix(l, "classification is "@).unwrap()))
    } else if strip_prefix(l, "due "@) is Some {
        filter_of(due_directive_spec(strip_prefix(l, "due "@).unwrap()))
    } else if strip_prefix(l, "sort by "@) is Some {
        sort_spec(strip_prefix(l, "sort by "@).unwrap())
    } else if strip_prefix(l, "limit "@) is Some {
        match parse_usize_spec(trim(strip_prefix(l, "limit "@).unwrap())) {
            Some(n) => Ok(DirectiveV::Limit(n)),
            None => Err("limit needs a non-negative number: "@ + l),
        }
    } else {
        Err("unknown directive: "@ + l)
    }
}

pub open spec fn result_view<T: DeepView>(r: Result<T, String>) -> Result<T::V, Seq<char>> {
    match r {
        Ok(v) => Ok(v.deep_view()),
        Err(e) => Err(e@),
    }
}

// ---------------------------------------------------------------- exec helpers

fn lit_eq(l: &Vec<char>, lit: &str) -> (r: bool)
    ensures
        r == (l@ == lit@),
{
    let p = chars_of(lit);
    if p.len() != l.len() {
        return false;
    }
    let r = occurs_at_exec(l, &p, 0);
    assert(l@.subrange(0, l.len() as int) =~= l@);
    r
}

fn strip_lit(l: &Vec<char>, lit: &str) -> (r: Option<Vec<char>>)
    ensures
        match r {
            Some(v) => strip_prefix(l@, lit@) == Some(v@),
            None => strip_prefix(l@, lit@) is None,
        },
{
    let p = chars_of(lit);
    if occurs_at_exec(l, &p, 0) {
        Some(slice_of(l, p.len(), l.len()))
    } else {
        None
    }
}

/// `prefix` followed by `v`.
fn message(prefix: &str, v: &Vec<char>) -> (r: String)
    ensures
        r@ == prefix@ + v@,
{
    let mut m = String::from_str(prefix);
    push_all(&mut m, v);
    m
}

fn has_ws_exec(v: &Vec<char>) -> (r: bool)
    ensures
        r == has_ws(v@),
{
    let mut i: usize = 0;
    while i < v.len()
        invariant
            i <= v.len(),
            forall|k: int| 0 <= k < i ==> !is_ws(#[trigger] v@[k]),
        decreases v.len() - i,
    {
        if is_whitespace(v[i]) {
            return true;
        }
        i += 1;
    }
    false
}

fn parse_quoted(rest: &Vec<char>) -> (r: Result<String, String>)
    ensures
        match r {
            Ok(v) => quoted_spec(rest@) == Ok::<Seq<char>, Seq<char>>(v@),
            Err(e) => quoted_spec(rest@) == Err::<Seq<char>, Seq<char>>(e@),
        },
{
    let t = trim_vec(rest);
    if t.len() >= 2 && t[0] == '"' && t[t.len() - 1] == '"' {
        let inner = slice_of(&t, 1, t.len() - 1);
        if !contains_char(&inner, '"') {
            return Ok(string_from_vec(&inner));
        }
    }
    Err(message("expected a quoted \"value\", got: ", rest))
}


fn parse_tag(line: &Vec<char>, rest: &Vec<char>) -> (r: Result<Filter, String>)
    ensures
        result_view(r) == tag_spec(line@, rest@),
{
    let t = trim_vec(rest);
    if t.len() == 0 || t[0] != '#' {
        return Err(message("tag must start with '#': ", line));
    }
    let name = slice_of(&t, 1, t.len());
    if name.len() == 0 || has_ws_exec(&name) {
        return Err(message("invalid tag: ", line));
    }
    Ok(Filter::Tag(string_from_vec(&name)))
}

fn parse_classification(line: &Vec<char>, rest: &Vec<char>) -> (r: Result<Filter, String>)
    ensures
        result_view(r) == classification_spec(line@, rest@),
{
    let label = trim_vec(rest);
    if label.len() == 0 {
        return Err(message("classification needs a label: ", line));
    }
    Ok(Filter::Classification(string_from_vec(&label)))
}

fn parse_due(rest: &Vec<char>) -> (r: Result<Filter, String>)
    ensures
        result_view(r) == due_directive_spec(rest@),
{
    let ws = words_exec(rest);
    let ghost w = words(rest@);
    assert(ws.len() == w.len());
    if ws.len() == 0 {
        return Err(message("due needs before|after|on: due ", rest));
    }
    assert(ws[0]@ == w[0]);
    let op = if lit_eq(&ws[0], "before") {
        DueCmp::Before
    } else if lit_eq(&ws[0], "after") {
        DueCmp::After
    } else if lit_eq(&ws[0], "on") {
        DueCmp::On
    } else {
        return Err(message("due needs before|after|on: due ", rest));
    };
    if ws.len() == 1 {
        return Err(message("due needs a date: due ", rest));
    }
    assert(ws[1]@ == w[1]);
    let today = lit_eq(&ws[1], "today");
    if !today && !iso_date_chars(&ws[1]) {
        let mut m = message("invalid date '", &ws[1]);
        push_str(&mut m, "' (use YYYY-MM-DD or today)");
        return Err(m);
    }
    if ws.len() > 2 {
        return Err(message("too many words in: due ", rest));
    }
    let date = if today {
        DateSpec::Today
    } else {
        DateSpec::Date(string_from_vec(&ws[1]))
    };
    Ok(Filter::Due(op, date))
}

fn parse_sort(rest: &Vec<char>) -> (r: Result<Directive, String>)
    ensures
        result_view(r) == sort_spec(rest@),
{
    let ws = words_exec(rest);
    let ghost w = words(rest@);
    assert(ws.len() == w.len());
    if ws.len() == 0 {
        return Err(message("sort by needs due|path: sort by ", rest));
    }
    assert(ws[0]@ == w[0]);
    let key = if lit_eq(&ws[0], "due") {
        SortKey::Due
    } else if lit_eq(&ws[0], "path") {
        SortKey::Path
    } else {
        return Err(message("sort by needs due|path: sort by ", rest));
    };
    let mut dir = SortDir::Asc;
    if ws.len() >= 2 {
        assert(ws[1]@ == w[1]);
        if lit_eq(&ws[1], "desc") {
            dir = SortDir::Desc;
        } else if !lit_eq(&ws[1], "asc") {
            return Err(message("sort direction must be asc|desc: ", &ws[1]));
        }
    }
    if ws.len() > 2 {
        return Err(message("too many words in: sort by ", rest));
    }
    Ok(Directive::Sort(key, dir))
}

fn quoted_filter(rest: &Vec<char>, which: u8) -> (r: Result<Directive, String>)
    requires
        which < 3,
    ensures
        result_view(r) == match quoted_spec(rest@) {
            Ok(v) => Ok(DirectiveV::Filter(
                if which == 0 {
                    FilterV::PathStartsWith(v)
                } else if which == 1 {
                    FilterV::PathIncludes(v)
                } else {
                    FilterV::TextIncludes(v)
                },
            )),
            Err(e) => Err(e),
        },
{
    match parse_quoted(rest) {
        Ok(v) => Ok(Directive::Filter(
            if which == 0 {
                Filter::PathStartsWith(v)
            } else if which == 1 {
                Filter::PathIncludes(v)
            } else {
                Filter::TextIncludes(v)
            },
        )),
        Err(e) => Err(e),
    }
}

fn wrap_filter(r: Result<Filter, String>) -> (o: Result<Directive, String>)
    ensures
        result_view(o) == filter_of(result_view(r)),
{
    match r {
        Ok(f) => Ok(Directive::Filter(f)),
        Err(e) => Err(e),
    }
}

/// Parse one trimmed, non-empty directive line.
fn parse_line(l: &Vec<char>) -> (r: Result<Directive, String>)
    ensures
        result_view(r) == parse_line_spec(l@),
{
    if lit_eq(l, "done") {
        return Ok(Directive::Filter(Filter::Done(true)));
    }
    if lit_eq(l, "not done") {
        return Ok(Directive::Filter(Filter::Done(false)));
    }
    if lit_eq(l, "no due") {
        return Ok(Directive::Filter(Filter::NoDue));
    }
    if lit_eq(l, "has due") {
        return Ok(Directive::Filter(Filter::HasDue));
    }
    if lit_eq(l, "due today") {
        return Ok(Directive::Filter(Filter::Due(DueCmp::On, DateSpec::Today)));
    }
    if let Some(rest) = strip_lit(l, "path startswith ") {
        return quoted_filter(&rest, 0);
    }
    if let Some(rest) = strip_lit(l, "path includes ") {
        return quoted_filter(&rest, 1);
    }
    if let Some(rest) = strip_lit(l, "text includes ") {
        return quoted_filter(&rest, 2);
    }
    if let Some(rest) = strip_lit(l, "tag ") {
        return wrap_filter(parse_tag(l, &rest));
    }
    if let Some(rest) = strip_lit(l, "classification is ") {
        return wrap_filter(parse_classification(l, &rest));
    }
    if let Some(rest) = strip_lit(l, "due ") {
        return wrap_filter(parse_due(&rest));
    }
    if let Some(rest) = strip_lit(l, "sort by ") {
        return parse_sort(&rest);
    }
    if let Some(rest) = strip_lit(l, "limit ") {
        let t = trim_vec(&rest);
        return match parse_usize(&t) {
            Some(n) => Ok(Directive::Limit(n)),
            None => Err(message("limit needs a non-negative number: ", l)),
        };
    }
    Err(message("unknown directive: ", l))
}


// ---------------------------------------------------------------- whole blocks

pub open spec fn empty_query() -> QueryV {
    QueryV { filters: Seq::empty(), sort: None, limit: None }
}

/// The query after one more directive: a filter is appended; a later `sort` or
/// `limit` replaces an earlier one.
pub open spec fn apply_directive(q: QueryV, d: DirectiveV) -> QueryV {
    match d {
        DirectiveV::Filter(f) => QueryV { filters: q.filters.push(f), sort: q.sort, limit: q.limit },
        DirectiveV::Sort(k, dir) => QueryV { filters: q.filters, sort: Some((k, dir)), limit: q.limit },
        DirectiveV::Limit(n) => QueryV { filters: q.filters, sort: q.sort, limit: Some(n) },
    }
}

/// Parse the lines of `s` from position `i` on, onto `acc`. Lines end at `\n`;
/// each is trimmed, and blank ones are skipped. The first bad line is the error.
pub open spec fn parse_from(s: Seq<char>, i: int, acc: QueryV) -> Result<QueryV, Seq<char>>
    decreases s.len() + 1 - i,
{
    if i < 0 || i >= s.len() {
        Ok(acc)
    } else {
        proof {
            crate::parse::lemma_first_of_bounds(s, '\n', i);
        }
        let e = crate::parse::first_of(s, '\n', i);
        let line = trim(s.subrange(i, e));
        if line.len() == 0 {
            parse_from(s, e + 1, acc)
        } else {
            match parse_line_spec(line) {
                Ok(d) => parse_from(s, e + 1, apply_directive(acc, d)),
                Err(m) => Err(m),
            }
        }
    }
}

/// What `parse` gives for a whole block.
pub open spec fn parse_spec(s: Seq<char>) -> Result<QueryV, Seq<char>> {
    parse_from(s, 0, empty_query())
}

/// Parse a ` ```query ` block body into a [`Query`]. Blank lines are ignored.
/// Returns a human-readable error on the first unknown or malformed directive.
pub fn parse(source: &str) -> (r: Result<Query, String>)
    ensures
        result_view(r) == parse_spec(source@),
{
    let v = chars_of(source);
    let mut q = Query { filters: Vec::new(), sort: None, limit: None };
    assert(q.filters.deep_view() =~= Seq::<FilterV>::empty());
    assert(q.deep_view() == empty_query());
    let mut i: usize = 0;
    while i < v.len()
        invariant
            v@ == source@,
            i <= v.len(),
            parse_from(v@, i as int, q.deep_view()) == parse_spec(v@),
        decreases v.len() - i,
    {
        proof {
            crate::parse::lemma_first_of_bounds(v@, '\n', i as int);
        }
        let e = crate::parse::find_char_in(&v, '\n', i, v.len());
        proof {
            crate::parse::lemma_first_of_shift(v@, '\n', i as int);
        }
        assert(e == crate::parse::first_of(v@, '\n', i as int));
        let (a, b) = trim_bounds(&v, i, e);
        let ghost q0 = q.deep_view();
        let ghost line = trim(v@.subrange(i as int, e as int));
        assert(line == v@.subrange(a as int, b as int));
        if a < b {
            let l = slice_of(&v, a, b);
            assert(l@ == line);
            match parse_line(&l) {
                Ok(d) => {
                    let ghost before = q.deep_view();
                    let ghost before_v = q.filters@;
                    let ghost dv = d.deep_view();
                    match d {
                        Directive::Filter(f) => {
                            let ghost fv = f.deep_view();
                            q.filters.push(f);
                            assert(q.filters.deep_view() =~= before.filters.push(fv)) by {
                                assert(q.filters@ == before_v.push(f));
                                assert forall|j: int| 0 <= j < q.filters.len() implies #[trigger] q.filters.deep_view()[j]
                                    == before.filters.push(fv)[j] by {
                                    if j < before_v.len() {
                                        assert(q.filters@[j] == before_v[j]);
                                    }
                                }
                            }
                        },
                        Directive::Sort(k, dir) => {
                            q.sort = Some((k, dir));
                        },
                        Directive::Limit(n) => {
                            q.limit = Some(n);
                        },
                    }
                    assert(q.deep_view() == apply_directive(before, dv));
                },
                Err(m) => {
                    return Err(m);
                },
            }
        }
        proof {
            if a < b {
                assert(parse_line_spec(line) is Ok);
                assert(parse_from(v@, i as int, q0) == parse_from(
                    v@,
                    e + 1,
                    apply_directive(q0, parse_line_spec(line)->Ok_0),
                ));
            } else {
                assert(line.len() == 0);
                assert(parse_from(v@, i as int, q0) == parse_from(v@, e + 1, q0));
            }
        }
        if e >= v.len() {
            i = v.len();
        } else {
            i = e + 1;
        }
    }
    Ok(q)
}


// ---------------------------------------------------------------- running

/// One task that matched a query, with the note it lives in.
#[derive(Debug, Clone, PartialEq)]
pub struct TaskHit {
    pub rel_path: String,
    pub title: String,
    pub text: String,
    pub done: bool,
    pub due: Option<String>,
    pub tags: Vec<String>,
    pub line: usize,
}

pub struct TaskHitV {
    pub rel_path: Seq<char>,
    pub title: Seq<char>,
    pub text: Seq<char>,
    pub done: bool,
    pub due: Option<Seq<char>>,
    pub tags: Seq<Seq<char>>,
    pub line: usize,
}

impl DeepView for TaskHit {
    type V = TaskHitV;

    open spec fn deep_view(&self) -> TaskHitV {
        TaskHitV {
            rel_path: self.rel_path@,
            title: self.title@,
            text: self.text@,
            done: self.done,
            due: self.due.deep_view(),
            tags: self.tags.deep_view(),
            line: self.line,
        }
    }
}

/// Does the task `t` of the note at `path` (with frontmatter classification
/// `class`) pass filter `f`, with `today` standing for `today`?
pub open spec fn matches_filter(
    f: FilterV,
    path: Seq<char>,
    class: Option<Seq<char>>,
    t: TaskV,
    today: Seq<char>,
) -> bool {
    match f {
        FilterV::Done(want) => t.done == want,
        FilterV::PathStartsWith(p) => starts_with(path, p),
        FilterV::PathIncludes(p) => contains_sub(path, p),
        FilterV::Tag(tag) => exists|i: int|
            0 <= i < t.tags.len() && eq_ignore_ascii_case(#[trigger] t.tags[i], tag),
        FilterV::TextIncludes(sub) => contains_sub(str_lowercase(t.text), str_lowercase(sub)),
        FilterV::NoDue => t.due is None,
        FilterV::HasDue => t.due is Some,
        FilterV::Classification(label) => match class {
            Some(c) => eq_ignore_ascii_case(c, label),
            None => false,
        },
        FilterV::Due(op, date) => {
            let target = match date {
                DateSpecV::Today => today,
                DateSpecV::Date(d) => d,
            };
            match t.due {
                None => false,
                Some(due) => match op {
                    DueCmp::Before => lex_lt(due, target),
                    DueCmp::After => lex_lt(target, due),
                    DueCmp::On => due == target,
                },
            }
        },
    }
}

/// Filters combine with AND.
pub open spec fn matches_all(
    fs: Seq<FilterV>,
    path: Seq<char>,
    class: Option<Seq<char>>,
    t: TaskV,
    today: Seq<char>,
) -> bool {
    forall|i: int| 0 <= i < fs.len() ==> #[trigger] matches_filter(fs[i], path, class, t, today)
}

pub open spec fn hit_of(e: NoteEntryV, t: TaskV) -> TaskHitV {
    TaskHitV {
        rel_path: e.rel_path,
        title: e.title,
        text: t.text,
        done: t.done,
        due: t.due,
        tags: t.tags,
        line: t.line,
    }
}

/// The hits among the first `k` tasks of note `e`.
pub open spec fn note_hits(e: NoteEntryV, fs: Seq<FilterV>, today: Seq<char>, k: int) -> Seq<TaskHitV>
    decreases k,
{
    if k <= 0 || k > e.tasks.len() {
        Seq::empty()
    } else if matches_all(fs, e.rel_path, e.classification, e.tasks[k - 1], today) {
        note_hits(e, fs, today, k - 1).push(hit_of(e, e.tasks[k - 1]))
    } else {
        note_hits(e, fs, today, k - 1)
    }
}

/// The hits among the first `n` notes of `s`, in order.
pub open spec fn all_hits(s: Seq<NoteEntryV>, fs: Seq<FilterV>, today: Seq<char>, n: int) -> Seq<TaskHitV>
    decreases n,
{
    if n <= 0 || n > s.len() {
        Seq::empty()
    } else {
        all_hits(s, fs, today, n - 1) + note_hits(s[n - 1], fs, today, s[n - 1].tasks.len() as int)
    }
}

/// The `(path, line)` order.
pub open spec fn path_line_lt(a: TaskHitV, b: TaskHitV) -> bool {
    lex_lt(a.rel_path, b.rel_path) || (a.rel_path == b.rel_path && a.line < b.line)
}

/// `Option` order on due dates: no date before any date.
pub open spec fn due_lt(a: Option<Seq<char>>, b: Option<Seq<char>>) -> bool {
    match (a, b) {
        (None, Some(_)) => true,
        (Some(x), Some(y)) => lex_lt(x, y),
        _ => false,
    }
}

/// The ascending order of a sort key, ties broken by `(path, line)`.
pub open spec fn hit_lt(key: SortKey, a: TaskHitV, b: TaskHitV) -> bool {
    match key {
        SortKey::Path => path_line_lt(a, b),
        SortKey::Due => due_lt(a.due, b.due) || (a.due == b.due && path_line_lt(a, b)),
    }
}

/// Ordered by `key`, ascending or (for `Desc`) descending.
pub open spec fn sorted_by(s: Seq<TaskHitV>, key: SortKey, dir: SortDir) -> bool {
    forall|i: int, j: int|
        0 <= i < j < s.len() ==> match dir {
            SortDir::Asc => !hit_lt(key, #[trigger] s[j], #[trigger] s[i]),
            SortDir::Desc => !hit_lt(key, s[i], s[j]),
        }
}

/// The order a query's results come in: its `sort`, or `(path, line)`
/// ascending when it has none.
pub open spec fn result_order(q: QueryV) -> (SortKey, SortDir) {
    match q.sort {
        Some(kd) => kd,
        None => (SortKey::Path, SortDir::Asc),
    }
}

/// How many results a query keeps of `n` hits.
pub open spec fn kept(n: nat, limit: Option<usize>) -> int {
    match limit {
        Some(l) => if l < n { l as int } else { n as int },
        None => n as int,
    }
}

/// What `execute` returns: every hit, in the query's order, cut to its limit.
pub open spec fn execute_spec(s: Seq<NoteEntryV>, q: QueryV, today: Seq<char>, r: Seq<TaskHitV>) -> bool {
    let hits = all_hits(s, q.filters, today, s.len() as int);
    exists|full: Seq<TaskHitV>|
        #![trigger full.to_multiset()]
        full.to_multiset() == hits.to_multiset() && sorted_by(full, result_order(q).0, result_order(q).1)
            && r == full.take(kept(full.len(), q.limit))
}


fn filter_matches(f: &Filter, path: &str, class: &Option<String>, t: &Task, today: &str) -> (r: bool)
    ensures
        r == matches_filter(f.deep_view(), path@, class.deep_view(), t.deep_view(), today@),
{
    match f {
        Filter::Done(want) => t.done == *want,
        Filter::PathStartsWith(p) => {
            let pv = chars_of(path);
            let xv = chars_of(p.as_str());
            occurs_at_exec(&pv, &xv, 0)
        },
        Filter::PathIncludes(p) => {
            let pv = chars_of(path);
            let xv = chars_of(p.as_str());
            contains_sub_exec(&pv, &xv)
        },
        Filter::Tag(tag) => {
            let mut i: usize = 0;
            while i < t.tags.len()
                invariant
                    i <= t.tags.len(),
                    f.deep_view() == FilterV::Tag(tag@),
                    forall|k: int|
                        0 <= k < i ==> !eq_ignore_ascii_case(
                            #[trigger] t.tags.deep_view()[k],
                            tag@,
                        ),
                decreases t.tags.len() - i,
            {
                assert(t.tags.deep_view()[i as int] == t.tags[i as int]@);
                if str_eq_ignore_ascii_case(t.tags[i].as_str(), tag.as_str()) {
                    assert(eq_ignore_ascii_case(t.deep_view().tags[i as int], tag@));
                    return true;
                }
                i += 1;
            }
            false
        },
        Filter::TextIncludes(sub) => {
            let a = to_lowercase(t.text.as_str());
            let b = to_lowercase(sub.as_str());
            let av = chars_of(a.as_str());
            let bv = chars_of(b.as_str());
            contains_sub_exec(&av, &bv)
        },
        Filter::NoDue => t.due.is_none(),
        Filter::HasDue => t.due.is_some(),
        Filter::Classification(label) => match class {
            Some(c) => str_eq_ignore_ascii_case(c.as_str(), label.as_str()),
            None => false,
        },
        Filter::Due(op, date) => {
            let target: &str = match date {
                DateSpec::Today => today,
                DateSpec::Date(d) => d.as_str(),
            };
            match &t.due {
                None => false,
                Some(due) => match op {
                    DueCmp::Before => str_lt(due.as_str(), target),
                    DueCmp::After => str_lt(target, due.as_str()),
                    DueCmp::On => str_eq(due.as_str(), target),
                },
            }
        },
    }
}

fn all_match(fs: &Vec<Filter>, path: &str, class: &Option<String>, t: &Task, today: &str) -> (r: bool)
    ensures
        r == matches_all(fs.deep_view(), path@, class.deep_view(), t.deep_view(), today@),
{
    let mut i: usize = 0;
    while i < fs.len()
        invariant
            i <= fs.len(),
            forall|k: int|
                0 <= k < i ==> #[trigger] matches_filter(
                    fs.deep_view()[k],
                    path@,
                    class.deep_view(),
                    t.deep_view(),
                    today@,
                ),
        decreases fs.len() - i,
    {
        if !filter_matches(&fs[i], path, class, t, today) {
            assert(!matches_filter(fs.deep_view()[i as int], path@, class.deep_view(), t.deep_view(), today@));
            return false;
        }
        i += 1;
    }
    true
}

fn hit_from(e: &NoteEntry, t: &Task) -> (r: TaskHit)
    ensures
        r.deep_view() == hit_of(e.deep_view(), t.deep_view()),
{
    TaskHit {
        rel_path: copy_string(&e.rel_path),
        title: copy_string(&e.title),
        text: copy_string(&t.text),
        done: t.done,
        due: copy_opt_string(&t.due),
        tags: copy_strings(&t.tags),
        line: t.line,
    }
}


pub proof fn lemma_hit_lt_order(key: SortKey, a: TaskHitV, b: TaskHitV, c: TaskHitV)
    ensures
        hit_lt(key, a, b) && hit_lt(key, b, c) ==> hit_lt(key, a, c),
        hit_lt(key, a, b) ==> !hit_lt(key, b, a),
{
    crate::text::lemma_lex_total(a.rel_path, b.rel_path);
    crate::text::lemma_lex_total(b.rel_path, c.rel_path);
    crate::text::lemma_lex_total(a.rel_path, c.rel_path);
    if lex_lt(a.rel_path, b.rel_path) && lex_lt(b.rel_path, c.rel_path) {
        crate::text::lemma_lex_trans(a.rel_path, b.rel_path, c.rel_path);
    }
    match (a.due, b.due, c.due) {
        (Some(x), Some(y), Some(z)) => {
            crate::text::lemma_lex_total(x, y);
            crate::text::lemma_lex_total(y, z);
            crate::text::lemma_lex_total(x, z);
            if lex_lt(x, y) && lex_lt(y, z) {
                crate::text::lemma_lex_trans(x, y, z);
            }
        },
        (Some(x), Some(y), None) => {
            crate::text::lemma_lex_total(x, y);
        },
        (None, Some(y), Some(z)) => {
            crate::text::lemma_lex_total(y, z);
        },
        (Some(x), None, Some(z)) => {
            crate::text::lemma_lex_total(x, z);
        },
        _ => {},
    }
}

fn path_line_lt_exec(a: &TaskHit, b: &TaskHit) -> (r: bool)
    ensures
        r == path_line_lt(a.deep_view(), b.deep_view()),
{
    str_lt(a.rel_path.as_str(), b.rel_path.as_str()) || (str_eq(
        a.rel_path.as_str(),
        b.rel_path.as_str(),
    ) && a.line < b.line)
}

fn hit_lt_exec(key: SortKey, a: &TaskHit, b: &TaskHit) -> (r: bool)
    ensures
        r == hit_lt(key, a.deep_view(), b.deep_view()),
{
    match key {
        SortKey::Path => path_line_lt_exec(a, b),
        SortKey::Due => {
            let (lt, eq) = match (&a.due, &b.due) {
                (None, None) => (false, true),
                (None, Some(_)) => (true, false),
                (Some(_), None) => (false, false),
                (Some(x), Some(y)) => (str_lt(x.as_str(), y.as_str()), str_eq(x.as_str(), y.as_str())),
            };
            assert(eq == (a.deep_view().due == b.deep_view().due));
            lt || (eq && path_line_lt_exec(a, b))
        },
    }
}

impl TaskHit {
    /// A copy with the same contents.
    pub fn copy(&self) -> (r: TaskHit)
        ensures
            r.deep_view() == self.deep_view(),
    {
        TaskHit {
            rel_path: copy_string(&self.rel_path),
            title: copy_string(&self.title),
            text: copy_string(&self.text),
            done: self.done,
            due: copy_opt_string(&self.due),
            tags: copy_strings(&self.tags),
            line: self.line,
        }
    }
}

/// Stable insertion sort of hits, ascending by `key`.
fn sort_hits(v: Vec<TaskHit>, key: SortKey) -> (r: Vec<TaskHit>)
    ensures
        sorted_by(r.deep_view(), key, SortDir::Asc),
        r.deep_view().to_multiset() == v.deep_view().to_multiset(),
{
    let mut out: Vec<TaskHit> = Vec::new();
    let mut k: usize = 0;
    let ghost vv = v.deep_view();
    assert(vv.take(0) =~= out.deep_view());
    while k < v.len()
        invariant
            k <= v.len(),
            vv == v.deep_view(),
            sorted_by(out.deep_view(), key, SortDir::Asc),
            out.deep_view().to_multiset() == vv.take(k as int).to_multiset(),
        decreases v.len() - k,
    {
        let x = v[k].copy();
        let mut p: usize = 0;
        while p < out.len() && !hit_lt_exec(key, &x, &out[p])
            invariant
                p <= out.len(),
                forall|q: int| 0 <= q < p ==> !hit_lt(key, x.deep_view(), #[trigger] out.deep_view()[q]),
            decreases out.len() - p,
        {
            p += 1;
        }
        let ghost o = out.deep_view();
        out.insert(p, x);
        proof {
            let xv = x.deep_view();
            assert(out.deep_view() =~= o.insert(p as int, xv));
            crate::index::lemma_insert_multiset(o, p as int, xv);
            assert(vv.take(k + 1) =~= vv.take(k as int).push(vv[k as int]));
            broadcast use vstd::seq_lib::group_to_multiset_ensures;
            let n = out.deep_view();
            assert forall|i: int, j: int| 0 <= i < j < n.len() implies !hit_lt(key, #[trigger] n[j], #[trigger] n[i]) by {
                assert(sorted_by(o, key, SortDir::Asc));
                if j < p {
                    assert(n[i] == o[i] && n[j] == o[j]);
                    assert(!hit_lt(key, o[j], o[i]));
                } else if j == p {
                    assert(n[i] == o[i]);
                } else if i < p {
                    assert(n[i] == o[i] && n[j] == o[j - 1]);
                    assert(!hit_lt(key, o[j - 1], o[i]));
                } else if i == p {
                    assert(n[j] == o[j - 1]);
                    if p < j - 1 {
                        assert(!hit_lt(key, o[j - 1], o[p as int]));
                    }
                    lemma_hit_lt_order(key, o[j - 1], xv, o[p as int]);
                    lemma_hit_lt_order(key, o[p as int], xv, o[j - 1]);
                    lemma_hit_lt_order(key, xv, o[j - 1], o[p as int]);
                } else {
                    assert(n[i] == o[i - 1] && n[j] == o[j - 1]);
                    assert(!hit_lt(key, o[j - 1], o[i - 1]));
                }
            }
        }
        k += 1;
    }
    assert(vv.take(v.len() as int) =~= vv);
    out
}


/// The hits of `v` in reverse order.
fn reverse_hits(v: &Vec<TaskHit>) -> (r: Vec<TaskHit>)
    ensures
        r.deep_view() == v.deep_view().reverse(),
{
    let ghost vv = v.deep_view();
    let n = v.len();
    let mut out: Vec<TaskHit> = Vec::new();
    let mut k: usize = 0;
    while k < n
        invariant
            k <= n,
            n == v.len(),
            vv == v.deep_view(),
            out.len() == k,
            forall|i: int| 0 <= i < k ==> #[trigger] out.deep_view()[i] == vv[n - 1 - i],
        decreases n - k,
    {
        let ghost before = out.deep_view();
        let h = v[n - 1 - k].copy();
        out.push(h);
        assert(out.deep_view() =~= before.push(h.deep_view()));
        k += 1;
    }
    assert(out.deep_view() =~= vv.reverse());
    out
}

/// A sequence sorted ascending by `key`, read backwards, is sorted descending.
proof fn lemma_reverse_sorted(s: Seq<TaskHitV>, key: SortKey)
    requires
        sorted_by(s, key, SortDir::Asc),
    ensures
        sorted_by(s.reverse(), key, SortDir::Desc),
{
    let r = s.reverse();
    assert forall|i: int, j: int| 0 <= i < j < r.len() implies !hit_lt(key, #[trigger] r[i], #[trigger] r[j]) by {
        assert(r[i] == s[s.len() - 1 - i] && r[j] == s[s.len() - 1 - j]);
    }
}

/// Run `query` over every task in `index`. `today` is the caller's local date
/// as `YYYY-MM-DD`, substituted wherever the grammar says `today`. Results come
/// in a deterministic order (the requested sort, or path+line), whatever order
/// the index keeps its notes in, and are then cut to `limit`.
pub fn execute(index: &Index, query: &Query, today: &str) -> (r: Vec<TaskHit>)
    requires
        index.wf(),
    ensures
        execute_spec(index.entries_seq(), query.deep_view(), today@, r.deep_view()),
{
    let notes = index.entries();
    let ghost s = notes.deep_view();
    let ghost fs = query.filters.deep_view();
    let mut hits: Vec<TaskHit> = Vec::new();
    let mut i: usize = 0;
    while i < notes.len()
        invariant
            i <= notes.len(),
            s == notes.deep_view(),
            fs == query.filters.deep_view(),
            hits.deep_view() == all_hits(s, fs, today@, i as int),
        decreases notes.len() - i,
    {
        let note = &notes[i];
        assert(s[i as int] == note.deep_view());
        let ghost ev = note.deep_view();
        let ghost before = hits.deep_view();
        let mut j: usize = 0;
        assert(note_hits(ev, fs, today@, 0) =~= Seq::<TaskHitV>::empty());
        assert(hits.deep_view() =~= before + note_hits(ev, fs, today@, 0));
        while j < note.tasks.len()
            invariant
                j <= note.tasks.len(),
                ev == note.deep_view(),
                fs == query.filters.deep_view(),
                hits.deep_view() == before + note_hits(ev, fs, today@, j as int),
            decreases note.tasks.len() - j,
        {
            let task = &note.tasks[j];
            assert(ev.tasks[j as int] == task.deep_view());
            let ghost prev = hits.deep_view();
            if all_match(&query.filters, note.rel_path.as_str(), &note.classification, task, today) {
                let h = hit_from(note, task);
                hits.push(h);
                assert(hits.deep_view() =~= prev.push(h.deep_view()));
            }
            assert(hits.deep_view() =~= before + note_hits(ev, fs, today@, j + 1));
            j += 1;
        }
        assert(hits.deep_view() =~= all_hits(s, fs, today@, i + 1));
        i += 1;
    }
    let ghost all = hits.deep_view();
    let (key, dir) = match query.sort {
        Some(kd) => kd,
        None => (SortKey::Path, SortDir::Asc),
    };
    let asc = sort_hits(hits, key);
    let mut out = match dir {
        SortDir::Asc => asc,
        SortDir::Desc => {
            proof {
                lemma_reverse_sorted(asc.deep_view(), key);
                asc.deep_view().lemma_reverse_to_multiset();
            }
            reverse_hits(&asc)
        },
    };
    let ghost full = out.deep_view();
    let ghost n = kept(full.len(), query.limit);
    if let Some(limit) = query.limit {
        let ghost before_v = out@;
        out.truncate(limit);
        assert(out.deep_view() =~= full.take(n)) by {
            assert forall|j: int| 0 <= j < out.len() implies #[trigger] out.deep_view()[j]
                == full.take(n)[j] by {
                assert(out@[j] == before_v[j]);
            }
        }
    } else {
        assert(full.take(n) =~= full);
    }
    assert(full.to_multiset() == all.to_multiset());
    out
}


// ---------------------------------------------------------------- laws of running

/// `h` is the hit for some task of some note in `s` that passes every filter.
pub open spec fn is_matching_hit(s: Seq<NoteEntryV>, fs: Seq<FilterV>, today: Seq<char>, h: TaskHitV) -> bool {
    exists|n: int, k: int|
        0 <= n < s.len() && 0 <= k < s[n].tasks.len() && matches_all(
            fs,
            s[n].rel_path,
            s[n].classification,
            #[trigger] s[n].tasks[k],
            today,
        ) && h == hit_of(s[n], s[n].tasks[k])
}

proof fn lemma_note_hits_match(s: Seq<NoteEntryV>, fs: Seq<FilterV>, today: Seq<char>, n: int, k: int)
    requires
        0 <= n < s.len(),
    ensures
        forall|i: int| 0 <= i < note_hits(s[n], fs, today, k).len() ==> is_matching_hit(
            s,
            fs,
            today,
            #[trigger] note_hits(s[n], fs, today, k)[i],
        ),
    decreases k,
{
    if k > 0 && k <= s[n].tasks.len() {
        lemma_note_hits_match(s, fs, today, n, k - 1);
        let prev = note_hits(s[n], fs, today, k - 1);
        let cur = note_hits(s[n], fs, today, k);
        assert forall|i: int| 0 <= i < cur.len() implies is_matching_hit(s, fs, today, #[trigger] cur[i]) by {
            if i < prev.len() {
                assert(cur[i] == prev[i]);
            } else {
                let t = s[n].tasks[k - 1];
                assert(cur[i] == hit_of(s[n], t));
                assert(matches_all(fs, s[n].rel_path, s[n].classification, s[n].tasks[k - 1], today));
            }
        }
    }
}

proof fn lemma_all_hits_match(s: Seq<NoteEntryV>, fs: Seq<FilterV>, today: Seq<char>, n: int)
    ensures
        forall|i: int| 0 <= i < all_hits(s, fs, today, n).len() ==> is_matching_hit(
            s,
            fs,
            today,
            #[trigger] all_hits(s, fs, today, n)[i],
        ),
    decreases n,
{
    if n > 0 && n <= s.len() {
        lemma_all_hits_match(s, fs, today, n - 1);
        lemma_note_hits_match(s, fs, today, n - 1, s[n - 1].tasks.len() as int);
        let a = all_hits(s, fs, today, n - 1);
        let b = note_hits(s[n - 1], fs, today, s[n - 1].tasks.len() as int);
        let c = all_hits(s, fs, today, n);
        assert forall|i: int| 0 <= i < c.len() implies is_matching_hit(s, fs, today, #[trigger] c[i]) by {
            if i < a.len() {
                assert(c[i] == a[i]);
            } else {
                assert(c[i] == b[i - a.len()]);
            }
        }
    }
}

/// What every query run returns: exactly as many hits as there are matches
/// (cut to the limit), each the hit of a task that passes every filter, in
/// the query's order.
pub proof fn law_execute_results(s: Seq<NoteEntryV>, q: QueryV, today: Seq<char>, r: Seq<TaskHitV>)
    requires
        execute_spec(s, q, today, r),
    ensures
        r.len() == kept(all_hits(s, q.filters, today, s.len() as int).len(), q.limit),
        q.limit matches Some(l) ==> r.len() <= l,
        forall|i: int| 0 <= i < r.len() ==> is_matching_hit(s, q.filters, today, #[trigger] r[i]),
        sorted_by(r, result_order(q).0, result_order(q).1),
{
    broadcast use vstd::seq_lib::group_to_multiset_ensures;
    let hits = all_hits(s, q.filters, today, s.len() as int);
    let full = choose|full: Seq<TaskHitV>|
        #![trigger full.to_multiset()]
        full.to_multiset() == hits.to_multiset() && sorted_by(full, result_order(q).0, result_order(q).1)
            && r == full.take(kept(full.len(), q.limit));
    assert(full.len() == hits.len()) by {
        assert(full.to_multiset().len() == hits.to_multiset().len());
    }
    lemma_all_hits_match(s, q.filters, today, s.len() as int);
    assert forall|i: int| 0 <= i < r.len() implies is_matching_hit(s, q.filters, today, #[trigger] r[i]) by {
        assert(r[i] == full[i]);
        assert(full.contains(full[i]));
        assert(hits.to_multiset().count(full[i]) > 0);
        let w = choose|w: int| 0 <= w < hits.len() && hits[w] == full[i];
        assert(is_matching_hit(s, q.filters, today, hits[w]));
    }
    let (key, dir) = result_order(q);
    assert forall|i: int, j: int| 0 <= i < j < r.len() implies match dir {
        SortDir::Asc => !hit_lt(key, #[trigger] r[j], #[trigger] r[i]),
        SortDir::Desc => !hit_lt(key, r[i], r[j]),
    } by {
        assert(r[i] == full[i] && r[j] == full[j]);
    }
}


/// No note of `s` holds two tasks on one line.
pub open spec fn task_lines_distinct(s: Seq<NoteEntryV>) -> bool {
    forall|n: int, a: int, b: int|
        0 <= n < s.len() && 0 <= a < b < s[n].tasks.len() ==> #[trigger] s[n].tasks[a].line
            != #[trigger] s[n].tasks[b].line
}

/// The hits of note `e`, as a multiset.
spec fn note_ms(e: NoteEntryV, fs: Seq<FilterV>, today: Seq<char>) -> vstd::multiset::Multiset<TaskHitV> {
    note_hits(e, fs, today, e.tasks.len() as int).to_multiset()
}

/// The hits of every note of `s`, as a multiset.
spec fn hits_ms(s: Seq<NoteEntryV>, fs: Seq<FilterV>, today: Seq<char>) -> vstd::multiset::Multiset<TaskHitV>
    decreases s.len(),
{
    if s.len() == 0 {
        vstd::multiset::Multiset::empty()
    } else {
        hits_ms(s.drop_last(), fs, today).add(note_ms(s.last(), fs, today))
    }
}

proof fn lemma_all_hits_ms(s: Seq<NoteEntryV>, fs: Seq<FilterV>, today: Seq<char>, n: int)
    requires
        0 <= n <= s.len(),
    ensures
        all_hits(s, fs, today, n).to_multiset() == hits_ms(s.take(n), fs, today),
    decreases n,
{
    broadcast use vstd::seq_lib::group_to_multiset_ensures;
    broadcast use vstd::multiset::group_multiset_axioms;
    if n == 0 {
        let e = all_hits(s, fs, today, 0);
        assert(e.to_multiset() =~= vstd::multiset::Multiset::empty()) by {
            assert forall|x: TaskHitV| e.to_multiset().count(x) == 0 by {
                assert(!e.contains(x));
            }
        }
    } else {
        lemma_all_hits_ms(s, fs, today, n - 1);
        vstd::seq_lib::lemma_multiset_commutative(
            all_hits(s, fs, today, n - 1),
            note_hits(s[n - 1], fs, today, s[n - 1].tasks.len() as int),
        );
        assert(s.take(n).drop_last() =~= s.take(n - 1));
        assert(s.take(n).last() == s[n - 1]);
    }
}

proof fn lemma_hits_ms_remove(s: Seq<NoteEntryV>, fs: Seq<FilterV>, today: Seq<char>, j: int)
    requires
        0 <= j < s.len(),
    ensures
        hits_ms(s, fs, today) == hits_ms(s.remove(j), fs, today).add(note_ms(s[j], fs, today)),
    decreases s.len(),
{
    broadcast use vstd::multiset::group_multiset_axioms;
    if j == s.len() - 1 {
        assert(s.remove(j) =~= s.drop_last());
    } else {
        let t = s.drop_last();
        lemma_hits_ms_remove(t, fs, today, j);
        assert(s.remove(j).drop_last() =~= t.remove(j));
        assert(s.remove(j).last() == s.last());
        let a = hits_ms(t.remove(j), fs, today);
        let x = note_ms(s[j], fs, today);
        let y = note_ms(s.last(), fs, today);
        assert(a.add(x).add(y) =~= a.add(y).add(x));
    }
}

proof fn lemma_hits_ms_perm(s1: Seq<NoteEntryV>, s2: Seq<NoteEntryV>, fs: Seq<FilterV>, today: Seq<char>)
    requires
        s1.to_multiset() == s2.to_multiset(),
    ensures
        hits_ms(s1, fs, today) == hits_ms(s2, fs, today),
    decreases s1.len(),
{
    broadcast use vstd::seq_lib::group_to_multiset_ensures;
    broadcast use vstd::multiset::group_multiset_axioms;
    assert(s1.to_multiset().len() == s2.to_multiset().len());
    assert(s1.len() == s1.to_multiset().len() && s2.len() == s2.to_multiset().len());
    if s1.len() > 0 {
        let x = s1.last();
        let d = s1.drop_last();
        assert(s1 =~= d.push(x));
        assert(s1.to_multiset() == d.to_multiset().insert(x));
        assert(s2.to_multiset().count(x) > 0);
        assert(s2.contains(x));
        let j = choose|j: int| 0 <= j < s2.len() && s2[j] == x;
        assert(s2.remove(j).to_multiset() == s2.to_multiset().remove(x));
        assert(d.to_multiset() =~= d.to_multiset().insert(x).remove(x));
        lemma_hits_ms_perm(d, s2.remove(j), fs, today);
        lemma_hits_ms_remove(s2, fs, today, j);
    }
}

/// Two sorted arrangements of one multiset are equal where any two distinct
/// items are strictly ordered.
proof fn lemma_sorted_unique(a: Seq<TaskHitV>, b: Seq<TaskHitV>, key: SortKey, dir: SortDir)
    requires
        a.to_multiset() == b.to_multiset(),
        sorted_by(a, key, dir),
        sorted_by(b, key, dir),
        forall|x: TaskHitV, y: TaskHitV|
            a.contains(x) && a.contains(y) && x != y ==> #[trigger] hit_lt(key, x, y) || #[trigger] hit_lt(key, y, x),
    ensures
        a == b,
    decreases a.len(),
{
    broadcast use vstd::seq_lib::group_to_multiset_ensures;
    assert(a.to_multiset().len() == b.to_multiset().len());
    assert(a.len() == a.to_multiset().len() && b.len() == b.to_multiset().len());
    if a.len() == 0 {
        assert(a =~= b);
    } else {
        if a[0] != b[0] {
            assert(b.to_multiset().count(b[0]) > 0);
            assert(a.contains(b[0]));
            let j = choose|j: int| 0 <= j < a.len() && a[j] == b[0];
            assert(a.to_multiset().count(a[0]) > 0);
            assert(b.contains(a[0]));
            let i = choose|i: int| 0 <= i < b.len() && b[i] == a[0];
            assert(a.contains(a[0]) && a.contains(b[0]));
            match dir {
                SortDir::Asc => {
                    assert(!hit_lt(key, a[j], a[0]));
                    assert(!hit_lt(key, b[i], b[0]));
                },
                SortDir::Desc => {
                    assert(!hit_lt(key, a[0], a[j]));
                    assert(!hit_lt(key, b[0], b[i]));
                },
            }
            assert(false);
        }
        let a1 = a.drop_first();
        let b1 = b.drop_first();
        assert(a1 =~= a.remove(0));
        assert(b1 =~= b.remove(0));
        assert forall|i: int, j: int| 0 <= i < j < a1.len() implies match dir {
            SortDir::Asc => !hit_lt(key, #[trigger] a1[j], #[trigger] a1[i]),
            SortDir::Desc => !hit_lt(key, a1[i], a1[j]),
        } by {
            assert(a1[i] == a[i + 1] && a1[j] == a[j + 1]);
        }
        assert forall|i: int, j: int| 0 <= i < j < b1.len() implies match dir {
            SortDir::Asc => !hit_lt(key, #[trigger] b1[j], #[trigger] b1[i]),
            SortDir::Desc => !hit_lt(key, b1[i], b1[j]),
        } by {
            assert(b1[i] == b[i + 1] && b1[j] == b[j + 1]);
        }
        assert forall|x: TaskHitV, y: TaskHitV|
            a1.contains(x) && a1.contains(y) && x != y implies #[trigger] hit_lt(key, x, y) || #[trigger] hit_lt(key, y, x) by {
            let p = choose|p: int| 0 <= p < a1.len() && a1[p] == x;
            let q = choose|q: int| 0 <= q < a1.len() && a1[q] == y;
            assert(a[p + 1] == x && a[q + 1] == y);
            assert(a.contains(x) && a.contains(y));
        }
        lemma_sorted_unique(a1, b1, key, dir);
        assert forall|k: int| 0 <= k < a.len() implies a[k] == b[k] by {
            if k > 0 {
                assert(a[k] == a1[k - 1] && b[k] == b1[k - 1]);
            }
        }
        assert(a =~= b);
    }
}

/// Two distinct hits of a valid note sequence are strictly ordered by any key.
proof fn lemma_hits_total(s: Seq<NoteEntryV>, fs: Seq<FilterV>, today: Seq<char>, key: SortKey, x: TaskHitV, y: TaskHitV)
    requires
        crate::index::unique_keys(s),
        task_lines_distinct(s),
        is_matching_hit(s, fs, today, x),
        is_matching_hit(s, fs, today, y),
        x != y,
    ensures
        hit_lt(key, x, y) || hit_lt(key, y, x),
{
    let (n1, k1) = choose|n: int, k: int|
        0 <= n < s.len() && 0 <= k < s[n].tasks.len() && matches_all(
            fs,
            s[n].rel_path,
            s[n].classification,
            #[trigger] s[n].tasks[k],
            today,
        ) && x == hit_of(s[n], s[n].tasks[k]);
    let (n2, k2) = choose|n: int, k: int|
        0 <= n < s.len() && 0 <= k < s[n].tasks.len() && matches_all(
            fs,
            s[n].rel_path,
            s[n].classification,
            #[trigger] s[n].tasks[k],
            today,
        ) && y == hit_of(s[n], s[n].tasks[k]);
    if x.rel_path == y.rel_path && x.line == y.line {
        assert(s[n1].rel_path == s[n2].rel_path);
        assert(n1 == n2);
        if k1 < k2 {
            assert(s[n1].tasks[k1].line != s[n1].tasks[k2].line);
        } else if k2 < k1 {
            assert(s[n1].tasks[k2].line != s[n1].tasks[k1].line);
        }
        assert(false);
    }
    crate::text::lemma_lex_total(x.rel_path, y.rel_path);
    match (x.due, y.due) {
        (Some(d), Some(e)) => {
            crate::text::lemma_lex_total(d, e);
        },
        _ => {},
    }
}

/// A query gives the same results whatever order the index keeps its notes
/// in: two sequences holding the same notes (each path once, no note with two
/// tasks on one line) give equal results.
pub proof fn law_execute_ignores_note_order(
    s1: Seq<NoteEntryV>,
    s2: Seq<NoteEntryV>,
    q: QueryV,
    today: Seq<char>,
    r1: Seq<TaskHitV>,
    r2: Seq<TaskHitV>,
)
    requires
        s1.to_multiset() == s2.to_multiset(),
        crate::index::unique_keys(s1),
        task_lines_distinct(s1),
        execute_spec(s1, q, today, r1),
        execute_spec(s2, q, today, r2),
    ensures
        r1 == r2,
{
    broadcast use vstd::seq_lib::group_to_multiset_ensures;
    let fs = q.filters;
    let (key, dir) = result_order(q);
    let h1 = all_hits(s1, fs, today, s1.len() as int);
    let h2 = all_hits(s2, fs, today, s2.len() as int);
    assert(s1.to_multiset().len() == s2.to_multiset().len());
    assert(s1.len() == s1.to_multiset().len() && s2.len() == s2.to_multiset().len());
    lemma_all_hits_ms(s1, fs, today, s1.len() as int);
    lemma_all_hits_ms(s2, fs, today, s2.len() as int);
    assert(s1.take(s1.len() as int) =~= s1);
    assert(s2.take(s2.len() as int) =~= s2);
    lemma_hits_ms_perm(s1, s2, fs, today);
    let full1 = choose|full: Seq<TaskHitV>|
        #![trigger full.to_multiset()]
        full.to_multiset() == h1.to_multiset() && sorted_by(full, key, dir)
            && r1 == full.take(kept(full.len(), q.limit));
    let full2 = choose|full: Seq<TaskHitV>|
        #![trigger full.to_multiset()]
        full.to_multiset() == h2.to_multiset() && sorted_by(full, key, dir)
            && r2 == full.take(kept(full.len(), q.limit));
    lemma_all_hits_match(s1, fs, today, s1.len() as int);
    assert forall|x: TaskHitV, y: TaskHitV|
        full1.contains(x) && full1.contains(y) && x != y implies #[trigger] hit_lt(key, x, y) || #[trigger] hit_lt(key, y, x) by {
        assert(h1.to_multiset().count(x) > 0 && h1.to_multiset().count(y) > 0);
        let p = choose|p: int| 0 <= p < h1.len() && h1[p] == x;
        let w = choose|w: int| 0 <= w < h1.len() && h1[w] == y;
        assert(is_matching_hit(s1, fs, today, h1[p]));
        assert(is_matching_hit(s1, fs, today, h1[w]));
        lemma_hits_total(s1, fs, today, key, x, y);
    }
    lemma_sorted_unique(full1, full2, key, dir);
}

// ---------------------------------------------------------------- laws of parsing

proof fn lemma_first_of_concat(p: Seq<char>, t: Seq<char>, c: char, i: int)
    requires
        0 <= i,
    ensures
        crate::parse::first_of(p + t, c, p.len() + i) == p.len() + crate::parse::first_of(t, c, i),
    decreases t.len() - i,
{
    if i < t.len() {
        assert((p + t)[p.len() + i] == t[i]);
        if t[i] != c {
            lemma_first_of_concat(p, t, c, i + 1);
        }
    }
}

proof fn lemma_first_of_within(s1: Seq<char>, x: Seq<char>, c: char, i: int)
    requires
        0 <= i <= s1.len(),
        crate::parse::first_of(s1, c, i) < s1.len(),
    ensures
        crate::parse::first_of(s1 + x, c, i) == crate::parse::first_of(s1, c, i),
    decreases s1.len() - i,
{
    assert((s1 + x)[i] == s1[i]);
    if s1[i] != c {
        lemma_first_of_within(s1, x, c, i + 1);
    }
}

/// Parsing from inside a suffix is parsing the suffix.
proof fn lemma_parse_shift(p: Seq<char>, t: Seq<char>, i: int, acc: QueryV)
    requires
        0 <= i,
    ensures
        parse_from(p + t, p.len() + i, acc) == parse_from(t, i, acc),
    decreases t.len() + 1 - i,
{
    if i < t.len() {
        let u = p + t;
        lemma_first_of_concat(p, t, '\n', i);
        crate::parse::lemma_first_of_bounds(t, '\n', i);
        let e = crate::parse::first_of(t, '\n', i);
        assert(u.subrange(p.len() + i, p.len() + e) =~= t.subrange(i, e));
        lemma_parse_shift(p, t, e + 1, acc);
        let line = trim(t.subrange(i, e));
        if line.len() > 0 {
            if parse_line_spec(line) is Ok {
                lemma_parse_shift(p, t, e + 1, apply_directive(acc, parse_line_spec(line)->Ok_0));
            }
        }
    }
}

/// Parsing text that starts with whole lines `s1`: parse those, then the rest.
proof fn lemma_parse_prefix(s1: Seq<char>, x: Seq<char>, i: int, acc: QueryV)
    requires
        s1.len() == 0 || s1.last() == '\n',
        0 <= i <= s1.len(),
    ensures
        parse_from(s1 + x, i, acc) == match parse_from(s1, i, acc) {
            Ok(a) => parse_from(x, 0, a),
            Err(m) => Err(m),
        },
    decreases s1.len() - i,
{
    if i < s1.len() {
        crate::parse::lemma_first_of_bounds(s1, '\n', i);
        assert(crate::parse::first_of(s1, '\n', i) < s1.len()) by {
            if crate::parse::first_of(s1, '\n', i) == s1.len() {
                assert(s1[s1.len() - 1] == '\n');
            }
        }
        lemma_first_of_within(s1, x, '\n', i);
        let e = crate::parse::first_of(s1, '\n', i);
        assert((s1 + x).subrange(i, e) =~= s1.subrange(i, e));
        let line = trim(s1.subrange(i, e));
        lemma_parse_prefix(s1, x, e + 1, acc);
        if line.len() > 0 && parse_line_spec(line) is Ok {
            lemma_parse_prefix(s1, x, e + 1, apply_directive(acc, parse_line_spec(line)->Ok_0));
        }
    } else {
        lemma_parse_shift(s1, x, 0, acc);
    }
}

/// A blank first line changes nothing.
proof fn lemma_blank_first_line(b: Seq<char>, t: Seq<char>, acc: QueryV)
    requires
        !b.contains('\n'),
        trim(b).len() == 0,
    ensures
        parse_from(b + seq!['\n'] + t, 0, acc) == parse_from(t, 0, acc),
{
    let p = b + seq!['\n'];
    let u = p + t;
    assert(u =~= b + seq!['\n'] + t);
    assert(crate::parse::first_of(u, '\n', 0) == b.len()) by {
        crate::parse::lemma_first_of_bounds(u, '\n', 0);
        assert(u[b.len() as int] == '\n');
        let f = crate::parse::first_of(u, '\n', 0);
        if f < b.len() {
            assert(u[f] == b[f]);
        }
    }
    assert(u.subrange(0, b.len() as int) =~= b);
    lemma_parse_shift(p, t, 0, acc);
}

/// Blank lines are ignored: inserting a line that is blank after trimming,
/// between any two lines of a query block, changes nothing.
pub proof fn law_blank_lines_ignored(s1: Seq<char>, b: Seq<char>, s2: Seq<char>)
    requires
        s1.len() == 0 || s1.last() == '\n',
        !b.contains('\n'),
        trim(b).len() == 0,
    ensures
        parse_spec(s1 + b + seq!['\n'] + s2) == parse_spec(s1 + s2),
{
    let x = b + seq!['\n'] + s2;
    assert(s1 + b + seq!['\n'] + s2 =~= s1 + x);
    lemma_parse_prefix(s1, x, 0, empty_query());
    lemma_parse_prefix(s1, s2, 0, empty_query());
    match parse_from(s1, 0, empty_query()) {
        Ok(a) => {
            lemma_blank_first_line(b, s2, a);
        },
        Err(_) => {},
    }
}


/// Two queries one after the other: the filters of both, in order, and the
/// later `sort` and `limit` where the second has them.
pub open spec fn combine(qa: QueryV, qb: QueryV) -> QueryV {
    QueryV {
        filters: qa.filters + qb.filters,
        sort: if qb.sort is Some { qb.sort } else { qa.sort },
        limit: if qb.limit is Some { qb.limit } else { qa.limit },
    }
}

/// Parsing onto `acc` is parsing onto the empty query, then combining.
proof fn lemma_parse_onto(s: Seq<char>, i: int, acc: QueryV)
    ensures
        parse_from(s, i, acc) == match parse_from(s, i, empty_query()) {
            Ok(q) => Ok(combine(acc, q)),
            Err(m) => Err(m),
        },
    decreases s.len() + 1 - i,
{
    if i < 0 || i >= s.len() {
        assert(acc.filters + Seq::<FilterV>::empty() =~= acc.filters);
    } else {
        crate::parse::lemma_first_of_bounds(s, '\n', i);
        let e = crate::parse::first_of(s, '\n', i);
        let line = trim(s.subrange(i, e));
        if line.len() == 0 {
            lemma_parse_onto(s, e + 1, acc);
        } else if parse_line_spec(line) is Ok {
            let d = parse_line_spec(line)->Ok_0;
            let one = apply_directive(empty_query(), d);
            lemma_parse_onto(s, e + 1, apply_directive(acc, d));
            lemma_parse_onto(s, e + 1, one);
            match parse_from(s, e + 1, empty_query()) {
                Ok(q) => {
                    assert(acc.filters + (one.filters + q.filters) =~= apply_directive(acc, d).filters + q.filters);
                },
                Err(_) => {},
            }
        }
    }
}

proof fn lemma_first_of_newline_end(a: Seq<char>, i: int)
    requires
        0 <= i <= a.len(),
    ensures
        crate::parse::first_of(a + seq!['\n'], '\n', i) == crate::parse::first_of(a, '\n', i),
    decreases a.len() - i,
{
    let u = a + seq!['\n'];
    if i < a.len() {
        assert(u[i] == a[i]);
        if a[i] != '\n' {
            lemma_first_of_newline_end(a, i + 1);
        }
    } else {
        assert(u[i] == '\n');
    }
}

/// A final newline changes nothing.
#[verifier::spinoff_prover]
proof fn lemma_parse_newline_end(a: Seq<char>, i: int, acc: QueryV)
    requires
        0 <= i,
    ensures
        parse_from(a + seq!['\n'], i, acc) == parse_from(a, i, acc),
    decreases a.len() + 1 - i,
{
    let u = a + seq!['\n'];
    if i > a.len() {
        assert(parse_from(u, i, acc) == Ok::<QueryV, Seq<char>>(acc));
    } else if i == a.len() {
        assert(u[i] == '\n');
        assert(crate::parse::first_of(u, '\n', i) == i);
        assert(u.subrange(i, i) =~= Seq::<char>::empty());
        assert(trim(Seq::<char>::empty()).len() == 0);
        assert(parse_from(u, i, acc) == parse_from(u, i + 1, acc));
    } else {
        lemma_first_of_newline_end(a, i);
        crate::parse::lemma_first_of_bounds(a, '\n', i);
        let e = crate::parse::first_of(a, '\n', i);
        assert(crate::parse::first_of(u, '\n', i) == e);
        assert(u.subrange(i, e) =~= a.subrange(i, e));
        let line = trim(a.subrange(i, e));
        if line.len() == 0 {
            lemma_parse_newline_end(a, e + 1, acc);
            assert(parse_from(u, i, acc) == parse_from(u, e + 1, acc));
            assert(parse_from(a, i, acc) == parse_from(a, e + 1, acc));
        } else {
            match parse_line_spec(line) {
                Ok(d) => {
                    lemma_parse_newline_end(a, e + 1, apply_directive(acc, d));
                    assert(parse_from(u, i, acc) == parse_from(u, e + 1, apply_directive(acc, d)));
                    assert(parse_from(a, i, acc) == parse_from(a, e + 1, apply_directive(acc, d)));
                },
                Err(m) => {
                    assert(parse_from(u, i, acc) == Err::<QueryV, Seq<char>>(m));
                },
            }
        }
    }
}

/// Parsing two blocks joined by a newline: the first error if either has
/// one, else the first block's query combined with the second's (filters of
/// both in order; a later `sort` or `limit` overrides an earlier one).
pub proof fn law_parse_concat(a: Seq<char>, b: Seq<char>)
    ensures
        parse_spec(a + seq!['\n'] + b) == match parse_spec(a) {
            Err(m) => Err(m),
            Ok(qa) => match parse_spec(b) {
                Ok(qb) => Ok(combine(qa, qb)),
                Err(m) => Err(m),
            },
        },
{
    let s1 = a + seq!['\n'];
    assert(s1.last() == '\n');
    lemma_parse_prefix(s1, b, 0, empty_query());
    lemma_parse_newline_end(a, 0, empty_query());
    match parse_spec(a) {
        Ok(qa) => {
            lemma_parse_onto(b, 0, qa);
        },
        Err(_) => {},
    }
}

} // verus!

verus! {

// ---------------------------------------------------------------- laws of filters and limits

/// `path includes "p"` holds exactly when `p` occurs in the note's path at
/// some position (not only at its start).
pub proof fn law_path_includes_is_substring(
    p: Seq<char>,
    path: Seq<char>,
    class: Option<Seq<char>>,
    t: TaskV,
    today: Seq<char>,
)
    ensures
        matches_filter(FilterV::PathIncludes(p), path, class, t, today) <==> exists|k: int|
            0 <= k && k + p.len() <= path.len() && #[trigger] path.subrange(k, k + p.len()) == p,
{
    if matches_filter(FilterV::PathIncludes(p), path, class, t, today) {
        let k = choose|k: int| crate::text::occurs_at(path, p, k);
        assert(path.subrange(k, k + p.len()) == p);
    }
    if exists|k: int| 0 <= k && k + p.len() <= path.len() && #[trigger] path.subrange(k, k + p.len()) == p {
        let k = choose|k: int| 0 <= k && k + p.len() <= path.len() && #[trigger] path.subrange(k, k + p.len()) == p;
        assert(crate::text::occurs_at(path, p, k));
    }
}

/// `path startswith "p"` holds exactly when the note's path begins with `p`.
pub proof fn law_path_startswith_is_prefix(
    p: Seq<char>,
    path: Seq<char>,
    class: Option<Seq<char>>,
    t: TaskV,
    today: Seq<char>,
)
    ensures
        matches_filter(FilterV::PathStartsWith(p), path, class, t, today) <==> (p.len() <= path.len()
            && path.take(p.len() as int) == p),
{
    assert(path.take(p.len() as int) =~= path.subrange(0, p.len() as int)) by {
        if p.len() > path.len() {
        }
    }
}

/// A `limit` line of decimal digits: the directive it parses to.
proof fn lemma_limit_line(d: Seq<char>)
    requires
        d.len() > 0,
        forall|k: int| 0 <= k < d.len() ==> '0' <= #[trigger] d[k] <= '9',
    ensures
        parse_line_spec("limit "@ + d) == if digits_value(d) <= usize::MAX {
            Ok::<DirectiveV, Seq<char>>(DirectiveV::Limit(digits_value(d) as usize))
        } else {
            Err("limit needs a non-negative number: "@ + ("limit "@ + d))
        },
{
    let l = "limit "@ + d;
    reveal_strlit("limit ");
    reveal_strlit("done");
    reveal_strlit("not done");
    reveal_strlit("no due");
    reveal_strlit("has due");
    reveal_strlit("due today");
    reveal_strlit("path startswith ");
    reveal_strlit("path includes ");
    reveal_strlit("text includes ");
    reveal_strlit("tag ");
    reveal_strlit("classification is ");
    reveal_strlit("due ");
    reveal_strlit("sort by ");
    assert(l[0] == 'l');
    assert(l != "done"@ && l != "not done"@ && l != "no due"@ && l != "has due"@ && l != "due today"@) by {
        assert("done"@[0] == 'd' && "not done"@[0] == 'n' && "no due"@[0] == 'n' && "has due"@[0] == 'h'
            && "due today"@[0] == 'd');
    }
    assert forall|q: Seq<char>| q.len() > 0 && q[0] != 'l' implies !starts_with(l, q) by {
        if starts_with(l, q) {
            assert(l.subrange(0, q.len() as int)[0] == l[0]);
        }
    }
    assert("path startswith "@[0] == 'p' && "path includes "@[0] == 'p' && "text includes "@[0] == 't'
        && "tag "@[0] == 't' && "classification is "@[0] == 'c' && "due "@[0] == 'd' && "sort by "@[0] == 's');
    assert(starts_with(l, "limit "@)) by {
        assert(l.subrange(0, 6) =~= "limit "@);
    }
    assert(strip_prefix(l, "limit "@).unwrap() =~= d);
    // the digits need no trimming and carry no sign
    crate::text::lemma_lead_ws_bounds(d, 0);
    crate::text::lemma_trail_ws_bounds(d, d.len() as int);
    assert(!is_ws(d[0]));
    assert(!is_ws(d[d.len() - 1]));
    assert(crate::text::lead_ws(d, 0) == 0);
    assert(crate::text::trail_ws(d, d.len() as int) == d.len());
    assert(d.subrange(0, d.len() as int) =~= d);
    assert(trim(d) == d);
    assert(usize_digits(d) == d);
    assert(all_digits(d));
}

/// A one-digit limit is that digit's value.
pub proof fn law_limit_single_digit(c: char)
    requires
        '0' <= c <= '9',
    ensures
        parse_line_spec("limit "@ + seq![c]) == Ok::<DirectiveV, Seq<char>>(DirectiveV::Limit((c as u32 - 48) as usize)),
{
    let d = seq![c];
    lemma_limit_line(d);
    assert(d.drop_last() =~= Seq::<char>::empty());
    assert(digits_value(d.drop_last()) == 0);
    assert(d.last() == c);
    assert(digits_value(d) == digit_value(c));
    assert(digits_value(d) == c as u32 - 48);
}

/// A limit reads every digit: appending digit `c` to a limit of digits `d`
/// gives ten times the limit of `d` plus `c`'s value (whenever it fits).
pub proof fn law_limit_reads_every_digit(d: Seq<char>, c: char)
    requires
        d.len() > 0,
        forall|k: int| 0 <= k < d.len() ==> '0' <= #[trigger] d[k] <= '9',
        '0' <= c <= '9',
    ensures
        parse_line_spec("limit "@ + d.push(c)) matches Ok(DirectiveV::Limit(b)) ==> (parse_line_spec(
            "limit "@ + d,
        ) matches Ok(DirectiveV::Limit(a)) && b == 10 * a + (c as u32 - 48)),
{
    let e = d.push(c);
    assert forall|k: int| 0 <= k < e.len() implies '0' <= #[trigger] e[k] <= '9' by {
        if k < d.len() {
            assert(e[k] == d[k]);
        }
    }
    lemma_limit_line(d);
    lemma_limit_line(e);
    assert(e.drop_last() =~= d);
    assert(digits_value(e) == digits_value(d) * 10 + digit_value(c));
}

} // verus!
