//! Daily notes: resolve `<dailyFolder>/<filename>.md` for a given *local* date
//! and, on first use that day, the body to create it with.
//!
//! The local calendar date is computed by the frontend (where the user's
//! timezone is unambiguous) and passed in as explicit `(year, month, day)`
//! components; nothing here reads a clock, so "today" stays correct near
//! midnight.
use crate::error::{AppError, AppResult};
use crate::fs_ops::{default_daily_folder, safe_vault_rel, safe_vault_rel_spec, VaultSettings};
use crate::text::{chars_of, decimal, decimal_string, push_str, replace_all, replace_exec, string_from_vec, zero_pad, zero_padded};
use vstd::prelude::*;

verus! {

/// A local calendar date supplied by the frontend (`month`/`day` are
/// 1-based).
#[derive(Clone, Copy, Debug)]
pub struct LocalDate {
    pub year: i32,
    pub month: u32,
    pub day: u32,
}

/// A year as `{:04}` writes it: zero-padded to four characters, the sign
/// counting toward the width.
pub open spec fn year_text(y: i32) -> Seq<char> {
    if y >= 0 {
        zero_pad(decimal(y as nat), 4)
    } else {
        seq!['-'] + zero_pad(decimal((-(y as int)) as nat), 3)
    }
}

/// Two-digit, zero-padded.
pub open spec fn two_digits(n: u32) -> Seq<char> {
    zero_pad(decimal(n as nat), 2)
}

/// ISO `YYYY-MM-DD` for a date.
pub open spec fn iso_spec(d: LocalDate) -> Seq<char> {
    year_text(d.year) + seq!['-'] + two_digits(d.month) + seq!['-'] + two_digits(d.day)
}

fn year_string(y: i32) -> (r: String)
    ensures
        r@ == year_text(y),
{
    if y >= 0 {
        zero_padded(y as u128, 4)
    } else {
        let mut s = String::new();
        s.push('-');
        let magnitude = (-(y as i64)) as u128;
        let digits = zero_padded(magnitude, 3);
        push_str(&mut s, digits.as_str());
        assert(s@ =~= year_text(y));
        s
    }
}

impl LocalDate {
    /// ISO `YYYY-MM-DD` rendering, used for the `{{date}}` token and the
    /// empty-note fallback title.
    pub fn iso(&self) -> (r: String)
        ensures
            r@ == iso_spec(*self),
    {
        let mut s = year_string(self.year);
        s.push('-');
        push_str(&mut s, zero_padded(self.month as u128, 2).as_str());
        s.push('-');
        push_str(&mut s, zero_padded(self.day as u128, 2).as_str());
        assert(s@ =~= iso_spec(*self));
        s
    }
}

/// Outcome of opening today's daily note.
pub struct DailyNote {
    /// Absolute path to the daily note.
    pub abs_path: String,
    /// `true` if this call created the file; `false` if it already existed.
    pub created: bool,
}

pub open spec fn yyyy() -> Seq<char> {
    seq!['Y', 'Y', 'Y', 'Y']
}

pub open spec fn mm() -> Seq<char> {
    seq!['M', 'M']
}

pub open spec fn dd() -> Seq<char> {
    seq!['D', 'D']
}

pub open spec fn date_token() -> Seq<char> {
    seq!['{', '{', 'd', 'a', 't', 'e', '}', '}']
}

/// The filename format with its tokens filled in, in turn: `YYYY`, then `MM`,
/// then `DD`.
pub open spec fn format_filename_spec(format: Seq<char>, d: LocalDate) -> Seq<char> {
    replace_all(
        replace_all(replace_all(format, yyyy(), year_text(d.year)), mm(), two_digits(d.month)),
        dd(),
        two_digits(d.day),
    )
}

fn token(t: &str) -> (r: Vec<char>)
    ensures
        r@ == t@,
{
    chars_of(t)
}

/// Apply the configured filename format. Only a tiny fixed set of literal date
/// tokens is supported: `YYYY`, `MM`, `DD`. Any other text in the format is
/// kept verbatim.
pub fn format_filename(format: &str, date: LocalDate) -> (r: String)
    ensures
        r@ == format_filename_spec(format@, date),
{
    let f = chars_of(format);
    let y = token("YYYY");
    let m = token("MM");
    let d = token("DD");
    proof {
        reveal_strlit("YYYY");
        reveal_strlit("MM");
        reveal_strlit("DD");
    }
    assert(y@ =~= yyyy());
    assert(m@ =~= mm());
    assert(d@ =~= dd());
    let yv = chars_of(year_string(date.year).as_str());
    let mv = chars_of(zero_padded(date.month as u128, 2).as_str());
    let dv = chars_of(zero_padded(date.day as u128, 2).as_str());
    let a = replace_exec(&f, &y, &yv);
    let b = replace_exec(&a, &m, &mv);
    let c = replace_exec(&b, &d, &dv);
    string_from_vec(&c)
}

/// The template body with its single `{{date}}` token replaced by the ISO
/// date.
pub open spec fn expand_template_spec(body: Seq<char>, d: LocalDate) -> Seq<char> {
    replace_all(body, date_token(), iso_spec(d))
}

/// Substitute the single supported literal token in a template body:
/// `{{date}}` becomes the ISO date. A fixed substitution, not a templating
/// engine.
pub fn expand_template(body: &str, date: LocalDate) -> (r: String)
    ensures
        r@ == expand_template_spec(body@, date),
{
    let b = chars_of(body);
    let t = token("{{date}}");
    proof {
        reveal_strlit("{{date}}");
    }
    assert(t@ =~= date_token());
    let iso = chars_of(date.iso().as_str());
    string_from_vec(&replace_exec(&b, &t, &iso))
}

/// `folder/filename.md` for the configured folder (the default when it is
/// unsafe) and filename format.
pub open spec fn daily_candidate(s: (Seq<char>, Seq<char>), d: LocalDate) -> Seq<char> {
    let folder = match safe_vault_rel_spec(s.0) {
        Some(f) => f,
        None => default_daily_folder(),
    };
    folder + seq!['/'] + format_filename_spec(s.1, d) + seq!['.', 'm', 'd']
}

/// The vault-relative path of a date's daily note, or the error for a
/// filename format that composes into an unsafe path.
pub open spec fn daily_rel_spec(s: (Seq<char>, Seq<char>), d: LocalDate) -> Result<Seq<char>, Seq<char>> {
    match safe_vault_rel_spec(daily_candidate(s, d)) {
        Some(rel) => Ok(rel),
        None => Err("invalid daily note path: "@ + daily_candidate(s, d)),
    }
}

/// Resolve the vault-relative path of the daily note for `date`, honoring the
/// configured folder and filename format and keeping the result vault-scoped.
/// A folder that would escape the vault falls back to the default; a filename
/// format that composes into an escaping path is rejected outright.
pub fn daily_rel_path(settings: &VaultSettings, date: LocalDate) -> (r: AppResult<String>)
    ensures
        match daily_rel_spec((settings.daily_notes.folder@, settings.daily_notes.filename_format@), date) {
            Ok(rel) => r matches Ok(s) && s@ == rel,
            Err(m) => r matches Err(AppError::InvalidPath(x)) && x@ == m,
        },
{
    let folder = match safe_vault_rel(settings.daily_notes.folder.as_str()) {
        Some(f) => f,
        None => String::from_str("Daily"),
    };
    let mut rel = folder;
    push_str(&mut rel, "/");
    let name = format_filename(settings.daily_notes.filename_format.as_str(), date);
    push_str(&mut rel, name.as_str());
    push_str(&mut rel, ".md");
    proof {
        reveal_strlit("/");
        reveal_strlit(".md");
    }
    assert(rel@ =~= daily_candidate(
        (settings.daily_notes.folder@, settings.daily_notes.filename_format@),
        date,
    ));
    match safe_vault_rel(rel.as_str()) {
        Some(s) => Ok(s),
        None => {
            let mut m = String::from_str("invalid daily note path: ");
            push_str(&mut m, rel.as_str());
            Err(AppError::InvalidPath(m))
        },
    }
}

/// The vault-relative path of the template to read, when the configured one is
/// safe.
pub fn template_rel(settings: &VaultSettings) -> (r: Option<String>)
    ensures
        r.deep_view() == safe_vault_rel_spec(settings.daily_notes.template_path@),
{
    safe_vault_rel(settings.daily_notes.template_path.as_str())
}

/// The body for a freshly created daily note.
pub open spec fn template_body_spec(template: Option<Seq<char>>, d: LocalDate) -> Seq<char> {
    match template {
        Some(body) => expand_template_spec(body, d),
        None => seq!['#', ' '] + iso_spec(d) + seq!['\n'],
    }
}

/// The body for a freshly created daily note: the template (as read) with its
/// `{{date}}` token expanded, or, when there is no usable template, an empty
/// note titled with the date.
pub fn template_body(template: Option<String>, date: LocalDate) -> (r: String)
    ensures
        r@ == template_body_spec(template.deep_view(), date),
{
    match template {
        Some(body) => expand_template(body.as_str(), date),
        None => {
            let mut s = String::new();
            s.push('#');
            s.push(' ');
            push_str(&mut s, date.iso().as_str());
            s.push('\n');
            assert(s@ =~= template_body_spec(None, date));
            s
        },
    }
}

} // verus!
