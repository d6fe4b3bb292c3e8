//! What the vault's file operations decide: how a note's bytes become editor
//! text and back (BOM, line endings), where attachments go and what they are
//! named, how images become `data:` URLs, which entries make up the file
//! tree, and whether a path stays inside the vault. The reading, writing and
//! listing themselves happen around these functions.
use crate::error::{AppError, AppResult};
use crate::text::{
    chars_of, contains_sub, contains_sub_exec, push_all, replace_all, replace_exec,
    string_from_vec,
};
use base64::Engine;
use std::hash::{Hash, Hasher};
use vstd::prelude::*;
use vstd::utf8::{decode_utf8, encode_utf8, valid_utf8};

verus! {

// ---------------------------------------------------------------- notes on disk

/// The UTF-8 byte-order mark. Some Windows editors prepend it; it is kept.
pub open spec fn bom_bytes() -> Seq<u8> {
    seq![0xEFu8, 0xBBu8, 0xBFu8]
}

/// A note loaded for editing. `content` is LF-normalized for the editor; `eol`
/// (`"lf"` or `"crlf"`) and `bom` record the on-disk style so a save restores
/// the exact bytes.
#[derive(Debug)]
pub struct NoteFile {
    pub content: String,
    pub eol: String,
    pub bom: bool,
}

/// What `String::from_utf8` reports (its `Display` text) for bytes that are not
/// valid UTF-8.
pub uninterp spec fn utf8_error_text(bytes: Seq<u8>) -> Seq<char>;

/// `std::str::from_utf8`, the error turned into its message. The contract
/// claims that valid UTF-8 decodes to its characters, and that any other input
/// yields the (named) error message.
#[verifier::external_body]
fn utf8_text(bytes: &[u8]) -> (r: Result<String, String>)
    ensures
        match r {
            Ok(s) => valid_utf8(bytes@) && s@ == decode_utf8(bytes@),
            Err(m) => !valid_utf8(bytes@) && m@ == utf8_error_text(bytes@),
        },
{
    match std::str::from_utf8(bytes) {
        Ok(s) => Ok(s.to_string()),
        Err(e) => Err(e.to_string()),
    }
}

pub open spec fn crlf() -> Seq<char> {
    seq!['\r', '\n']
}

pub open spec fn lf() -> Seq<char> {
    seq!['\n']
}

/// The file starts with a BOM.
pub open spec fn has_bom(raw: Seq<u8>) -> bool {
    raw.len() >= 3 && raw.take(3) == bom_bytes()
}

/// The bytes after the BOM, if any.
pub open spec fn body_bytes(raw: Seq<u8>) -> Seq<u8> {
    if has_bom(raw) {
        raw.skip(3)
    } else {
        raw
    }
}

/// The line-ending style of a text: `"crlf"` if it holds any CRLF.
pub open spec fn eol_of(t: Seq<char>) -> Seq<char> {
    if contains_sub(t, crlf()) {
        "crlf"@
    } else {
        "lf"@
    }
}

/// What decoding a note's bytes gives: the LF-normalized text, its style and
/// BOM flag, or an error for bytes that are not UTF-8.
pub open spec fn decode_spec(raw: Seq<u8>) -> Result<(Seq<char>, Seq<char>, bool), Seq<char>> {
    let body = body_bytes(raw);
    if valid_utf8(body) {
        let t = decode_utf8(body);
        Ok((replace_all(t, crlf(), lf()), eol_of(t), has_bom(raw)))
    } else {
        Err("note is not valid UTF-8: "@ + utf8_error_text(body))
    }
}

/// Turn a note's raw bytes into editor text: strip a UTF-8 BOM if present,
/// detect the line-ending style, and normalize content to LF.
pub fn decode_note(raw: &Vec<u8>) -> (r: AppResult<NoteFile>)
    ensures
        match decode_spec(raw@) {
            Ok((c, e, b)) => r matches Ok(nf) && nf.content@ == c && nf.eol@ == e && nf.bom == b,
            Err(m) => r matches Err(AppError::InvalidPath(x)) && x@ == m,
        },
{
    let bom = raw.len() >= 3 && raw[0] == 0xEF && raw[1] == 0xBB && raw[2] == 0xBF;
    assert(bom == has_bom(raw@)) by {
        if raw.len() >= 3 {
            assert(bom ==> raw@.take(3) =~= bom_bytes());
        }
    }
    let start: usize = if bom {
        3
    } else {
        0
    };
    let mut body: Vec<u8> = Vec::new();
    let mut i: usize = start;
    while i < raw.len()
        invariant
            start <= i <= raw.len(),
            body@ == raw@.subrange(start as int, i as int),
        decreases raw.len() - i,
    {
        body.push(raw[i]);
        i += 1;
        assert(body@ =~= raw@.subrange(start as int, i as int));
    }
    assert(body@ =~= body_bytes(raw@));
    match utf8_text(body.as_slice()) {
        Ok(text) => {
            let t = chars_of(text.as_str());
            let mut p: Vec<char> = Vec::new();
            p.push('\r');
            p.push('\n');
            let mut q: Vec<char> = Vec::new();
            q.push('\n');
            assert(p@ =~= crlf());
            assert(q@ =~= lf());
            let crlf_seen = contains_sub_exec(&t, &p);
            let content = string_from_vec(&replace_exec(&t, &p, &q));
            let eol = if crlf_seen {
                String::from_str("crlf")
            } else {
                String::from_str("lf")
            };
            Ok(NoteFile { content, eol, bom })
        },
        Err(e) => {
            let mut m = String::from_str("note is not valid UTF-8: ");
            crate::text::push_str(&mut m, e.as_str());
            Err(AppError::InvalidPath(m))
        },
    }
}

/// The text written for editor `content` in style `eol`: LF-normalized, then
/// every LF made CRLF when the style is `"crlf"`.
pub open spec fn bodied(content: Seq<char>, eol: Seq<char>) -> Seq<char> {
    let normalized = replace_all(content, crlf(), lf());
    if eol == "crlf"@ {
        replace_all(normalized, lf(), crlf())
    } else {
        normalized
    }
}

/// The bytes saving `content` writes: the BOM when `bom`, then the UTF-8 of
/// the text in the note's own line-ending style.
pub open spec fn save_bytes(content: Seq<char>, eol: Seq<char>, bom: bool) -> Seq<u8> {
    (if bom {
        bom_bytes()
    } else {
        Seq::empty()
    }) + encode_utf8(bodied(content, eol))
}

/// The exact bytes that saving editor `content` (LF-normalized) writes,
/// restoring the original `eol` style and `bom` so only the intended text
/// changes. Writing them (atomically) is the caller's part.
pub fn save_note(content: &str, eol: &str, bom: bool) -> (r: Vec<u8>)
    ensures
        r@ == save_bytes(content@, eol@, bom),
{
    let c = chars_of(content);
    let mut p: Vec<char> = Vec::new();
    p.push('\r');
    p.push('\n');
    let mut q: Vec<char> = Vec::new();
    q.push('\n');
    assert(p@ =~= crlf());
    assert(q@ =~= lf());
    let normalized = replace_exec(&c, &p, &q);
    let text = if crate::text::str_eq(eol, "crlf") {
        string_from_vec(&replace_exec(&normalized, &q, &p))
    } else {
        string_from_vec(&normalized)
    };
    let encoded = text.as_str().as_bytes();
    let mut out: Vec<u8> = Vec::new();
    if bom {
        out.push(0xEF);
        out.push(0xBB);
        out.push(0xBF);
    }
    let ghost head = out@;
    let mut i: usize = 0;
    while i < encoded.len()
        invariant
            i <= encoded.len(),
            out@ == head + encoded@.subrange(0, i as int),
        decreases encoded.len() - i,
    {
        out.push(encoded[i]);
        i += 1;
        assert(out@ =~= head + encoded@.subrange(0, i as int));
    }
    assert(encoded@.subrange(0, encoded.len() as int) =~= encoded@);
    assert(head =~= (if bom {
        bom_bytes()
    } else {
        Seq::<u8>::empty()
    }));
    out
}


// ---------------------------------------------------------------- round trip

/// Line endings a read-then-save cycle restores exactly: either the text holds
/// no CRLF at all, or it is CRLF throughout (every LF follows a CR and every
/// CR precedes an LF). Mixed endings are saved all in the detected style.
pub open spec fn uniform_line_endings(t: Seq<char>) -> bool {
    !contains_sub(t, crlf()) || ((forall|i: int|
        0 <= i < t.len() && #[trigger] t[i] == '\n' ==> i > 0 && t[i - 1] == '\r') && (forall|i: int|
        0 <= i < t.len() && #[trigger] t[i] == '\r' ==> i + 1 < t.len() && t[i + 1] == '\n'))
}

/// Replacing a pattern that does not occur from `i` on copies the rest.
proof fn lemma_replace_absent(s: Seq<char>, p: Seq<char>, r: Seq<char>, i: int)
    requires
        p.len() > 0,
        0 <= i <= s.len(),
        forall|j: int| i <= j < s.len() ==> !crate::text::occurs_at(s, p, j),
    ensures
        crate::text::replace_from(s, p, r, i) == s.skip(i),
    decreases s.len() - i,
{
    if i < s.len() {
        lemma_replace_absent(s, p, r, i + 1);
        assert(s.skip(i) =~= seq![s[i]] + s.skip(i + 1));
    } else {
        assert(s.skip(i) =~= Seq::<char>::empty());
    }
}

/// Replacing from `i + 1` in `s` is replacing from `i` in `s` without its first
/// element.
proof fn lemma_replace_shift(s: Seq<char>, p: Seq<char>, r: Seq<char>, i: int)
    requires
        p.len() > 0,
        s.len() > 0,
        0 <= i,
    ensures
        crate::text::replace_from(s, p, r, i + 1) == crate::text::replace_from(s.drop_first(), p, r, i),
    decreases s.len() - i,
{
    let t = s.drop_first();
    if i + 1 < s.len() {
        assert(crate::text::occurs_at(s, p, i + 1) == crate::text::occurs_at(t, p, i)) by {
            if i + 1 + p.len() <= s.len() {
                assert(s.subrange(i + 1, i + 1 + p.len()) =~= t.subrange(i, i + p.len()));
            }
        }
        if crate::text::occurs_at(s, p, i + 1) {
            lemma_replace_shift(s, p, r, i + p.len());
        } else {
            lemma_replace_shift(s, p, r, i + 1);
        }
    }
}

/// LF-to-CRLF replacement, one leading character at a time.
proof fn lemma_lf_to_crlf_cons(c: char, x: Seq<char>)
    ensures
        replace_all(seq![c] + x, lf(), crlf()) == (if c == '\n' {
            crlf()
        } else {
            seq![c]
        }) + replace_all(x, lf(), crlf()),
{
    let u = seq![c] + x;
    assert(u.drop_first() =~= x);
    lemma_replace_shift(u, lf(), crlf(), 0);
    assert(crate::text::occurs_at(u, lf(), 0) == (c == '\n')) by {
        if c == '\n' {
            assert(u.subrange(0, 1) =~= lf());
        } else {
            assert(u.subrange(0, 1)[0] != lf()[0]);
        }
    }
}

/// CRLF-to-LF replacement leaves no CR when every CR precedes an LF.
proof fn lemma_no_cr_left(t: Seq<char>, i: int)
    requires
        0 <= i,
        forall|j: int| 0 <= j < t.len() && #[trigger] t[j] == '\r' ==> j + 1 < t.len() && t[j + 1] == '\n',
    ensures
        forall|k: int|
            0 <= k < crate::text::replace_from(t, crlf(), lf(), i).len() ==> #[trigger] crate::text::replace_from(
                t,
                crlf(),
                lf(),
                i,
            )[k] != '\r',
    decreases t.len() - i,
{
    if i < t.len() {
        let out = crate::text::replace_from(t, crlf(), lf(), i);
        if crate::text::occurs_at(t, crlf(), i) {
            lemma_no_cr_left(t, i + 2);
            let rest = crate::text::replace_from(t, crlf(), lf(), i + 2);
            assert(out == lf() + rest);
            assert forall|k: int| 0 <= k < out.len() implies #[trigger] out[k] != '\r' by {
                if k > 0 {
                    assert(out[k] == rest[k - 1]);
                }
            }
        } else {
            lemma_no_cr_left(t, i + 1);
            if t[i] == '\r' {
                assert(t.subrange(i, i + 2) =~= crlf());
            }
            let rest = crate::text::replace_from(t, crlf(), lf(), i + 1);
            assert(out == seq![t[i]] + rest);
            assert forall|k: int| 0 <= k < out.len() implies #[trigger] out[k] != '\r' by {
                if k > 0 {
                    assert(out[k] == rest[k - 1]);
                }
            }
        }
    }
}

/// In CRLF-throughout text, turning CRLF into LF and back restores the text.
proof fn lemma_crlf_back(t: Seq<char>, i: int)
    requires
        0 <= i <= t.len(),
        forall|j: int| 0 <= j < t.len() && #[trigger] t[j] == '\n' ==> j > 0 && t[j - 1] == '\r',
        0 < i < t.len() ==> !(t[i - 1] == '\r' && t[i] == '\n'),
    ensures
        replace_all(crate::text::replace_from(t, crlf(), lf(), i), lf(), crlf()) == t.skip(i),
    decreases t.len() - i,
{
    if i < t.len() {
        if crate::text::occurs_at(t, crlf(), i) {
            assert(t.subrange(i, i + 2) == crlf());
            assert(t[i] == '\r' && t[i + 1] == '\n');
            lemma_crlf_back(t, i + 2);
            let rest = crate::text::replace_from(t, crlf(), lf(), i + 2);
            lemma_lf_to_crlf_cons('\n', rest);
            assert(seq!['\n'] + rest =~= lf() + rest);
            assert(t.skip(i) =~= crlf() + t.skip(i + 2));
        } else {
            if t[i] == '\n' {
                assert(t[i - 1] == '\r');
            }
            if i + 1 < t.len() && t[i] == '\r' && t[i + 1] == '\n' {
                assert(t.subrange(i, i + 2) =~= crlf());
            }
            lemma_crlf_back(t, i + 1);
            let rest = crate::text::replace_from(t, crlf(), lf(), i + 1);
            lemma_lf_to_crlf_cons(t[i], rest);
            assert(t.skip(i) =~= seq![t[i]] + t.skip(i + 1));
        }
    } else {
        assert(crate::text::replace_from(t, crlf(), lf(), i) =~= Seq::<char>::empty());
        assert(replace_all(Seq::<char>::empty(), lf(), crlf()) =~= Seq::<char>::empty());
        assert(t.skip(i) =~= Seq::<char>::empty());
    }
}

/// CRLF-to-LF replacement, one leading character at a time (for a character
/// that cannot start a CRLF).
proof fn lemma_crlf_to_lf_cons(c: char, x: Seq<char>)
    requires
        c != '\r',
    ensures
        replace_all(seq![c] + x, crlf(), lf()) == seq![c] + replace_all(x, crlf(), lf()),
{
    let u = seq![c] + x;
    assert(u.drop_first() =~= x);
    lemma_replace_shift(u, crlf(), lf(), 0);
    assert(!crate::text::occurs_at(u, crlf(), 0)) by {
        if crate::text::occurs_at(u, crlf(), 0) {
            assert(u.subrange(0, 2)[0] == u[0]);
        }
    }
}

/// CRLF-to-LF replacement on a text starting with CRLF.
proof fn lemma_crlf_to_lf_pair(x: Seq<char>)
    ensures
        replace_all(crlf() + x, crlf(), lf()) == lf() + replace_all(x, crlf(), lf()),
{
    let u = crlf() + x;
    assert(u.subrange(0, 2) =~= crlf());
    let u1 = u.drop_first();
    assert(u1.drop_first() =~= x);
    lemma_replace_shift(u, crlf(), lf(), 1);
    lemma_replace_shift(u1, crlf(), lf(), 0);
}

/// Text without CR survives LF-to-CRLF and back, and holds a CRLF afterwards
/// exactly when it held an LF.
proof fn lemma_lf_crlf_lf(c: Seq<char>)
    requires
        !c.contains('\r'),
    ensures
        replace_all(replace_all(c, lf(), crlf()), crlf(), lf()) == c,
        contains_sub(replace_all(c, lf(), crlf()), crlf()) == c.contains('\n'),
    decreases c.len(),
{
    if c.len() == 0 {
        assert(replace_all(c, lf(), crlf()) =~= Seq::<char>::empty());
        assert(replace_all(Seq::<char>::empty(), crlf(), lf()) =~= Seq::<char>::empty());
        assert(!contains_sub(Seq::<char>::empty(), crlf())) by {
            if contains_sub(Seq::<char>::empty(), crlf()) {
                let i = choose|i: int| crate::text::occurs_at(Seq::<char>::empty(), crlf(), i);
            }
        }
    } else {
        let h = c[0];
        let t = c.drop_first();
        assert(c =~= seq![h] + t);
        assert(!t.contains('\r')) by {
            if t.contains('\r') {
                let k = choose|k: int| 0 <= k < t.len() && t[k] == '\r';
                assert(c[k + 1] == '\r');
            }
        }
        lemma_lf_crlf_lf(t);
        let lt = replace_all(t, lf(), crlf());
        lemma_lf_to_crlf_cons(h, t);
        if h == '\n' {
            lemma_crlf_to_lf_pair(lt);
            assert(lf() =~= seq![h]);
            assert(crate::text::occurs_at(crlf() + lt, crlf(), 0)) by {
                assert((crlf() + lt).subrange(0, 2) =~= crlf());
            }
            assert(c.contains('\n')) by {
                assert(c[0] == '\n');
            }
        } else {
            assert(h != '\r') by {
                assert(c[0] == h);
            }
            lemma_crlf_to_lf_cons(h, lt);
            let u = seq![h] + lt;
            assert(contains_sub(u, crlf()) == contains_sub(lt, crlf())) by {
                if contains_sub(u, crlf()) {
                    let i = choose|i: int| crate::text::occurs_at(u, crlf(), i);
                    if i == 0 {
                        assert(u.subrange(0, 2)[0] == h);
                    } else {
                        assert(u.subrange(i, i + 2) =~= lt.subrange(i - 1, i + 1));
                        assert(crate::text::occurs_at(lt, crlf(), i - 1));
                    }
                }
                if contains_sub(lt, crlf()) {
                    let i = choose|i: int| crate::text::occurs_at(lt, crlf(), i);
                    assert(u.subrange(i + 1, i + 3) =~= lt.subrange(i, i + 2));
                    assert(crate::text::occurs_at(u, crlf(), i + 1));
                }
            }
            assert(c.contains('\n') == t.contains('\n')) by {
                if c.contains('\n') {
                    let k = choose|k: int| 0 <= k < c.len() && c[k] == '\n';
                    assert(k > 0);
                    assert(t[k - 1] == '\n');
                }
                if t.contains('\n') {
                    let k = choose|k: int| 0 <= k < t.len() && t[k] == '\n';
                    assert(c[k + 1] == '\n');
                }
            }
        }
    }
}

/// Text without CR holds no CRLF, so CRLF-to-LF replacement keeps it.
proof fn lemma_no_cr_kept(c: Seq<char>)
    requires
        !c.contains('\r'),
    ensures
        replace_all(c, crlf(), lf()) == c,
        !contains_sub(c, crlf()),
{
    assert forall|j: int| 0 <= j < c.len() implies !crate::text::occurs_at(c, crlf(), j) by {
        if crate::text::occurs_at(c, crlf(), j) {
            assert(c.subrange(j, j + 2)[0] == c[j]);
        }
    }
    lemma_replace_absent(c, crlf(), lf(), 0);
    assert(c.skip(0) =~= c);
    if contains_sub(c, crlf()) {
        let i = choose|i: int| crate::text::occurs_at(c, crlf(), i);
        assert(c.subrange(i, i + 2)[0] == c[i]);
    }
}

/// Bytes that start with the UTF-8 of a character other than U+FEFF do not
/// start with a BOM.
proof fn lemma_no_bom_prefix(t: Seq<char>)
    requires
        t.len() == 0 || t[0] as u32 != 0xFEFF,
    ensures
        !has_bom(encode_utf8(t)),
{
    if t.len() > 0 {
        let v = t[0] as u32;
        let enc = vstd::utf8::encode_scalar(v);
        assert(encode_utf8(t) == enc + encode_utf8(t.drop_first()));
        vstd::utf8::char_is_scalar(t[0]);
        if has_bom(encode_utf8(t)) {
            let b = encode_utf8(t);
            assert(b.take(3)[0] == 0xEFu8 && b.take(3)[1] == 0xBBu8 && b.take(3)[2] == 0xBFu8);
            if vstd::utf8::has_width_1_encoding(v) {
                assert(b[0] == (v & 0x7F) as u8);
                assert(v <= 0x7F ==> (v & 0x7F) as u8 != 0xEF) by (bit_vector);
            } else if vstd::utf8::has_width_2_encoding(v) {
                assert(b[0] == (0xC0 | ((v >> 6) & 0x1F) as u8) as u8);
                assert((0xC0 | ((v >> 6) & 0x1F) as u8) as u8 != 0xEF) by (bit_vector);
            } else if vstd::utf8::has_width_3_encoding(v) {
                assert(b[0] == (0xE0 | ((v >> 12) & 0x0F) as u8) as u8);
                assert(b[1] == (0x80 | ((v >> 6) & 0x3F) as u8) as u8);
                assert(b[2] == (0x80 | (v & 0x3F) as u8) as u8);
                assert(v <= 0xFFFF && (0xE0 | ((v >> 12) & 0x0F) as u8) as u8 == 0xEF && (0x80 | ((v >> 6)
                    & 0x3F) as u8) as u8 == 0xBB && (0x80 | (v & 0x3F) as u8) as u8 == 0xBF ==> v == 0xFEFF)
                    by (bit_vector);
            } else {
                assert(b[0] == (0xF0 | ((v >> 18) & 0x7) as u8) as u8);
                assert((0xF0 | ((v >> 18) & 0x7) as u8) as u8 != 0xEF) by (bit_vector);
            }
        }
    } else {
        assert(encode_utf8(t) =~= Seq::<u8>::empty());
    }
}

/// Saving editor text and reading it back gives the text back, with the BOM
/// flag as saved and the CRLF style whenever CRLF was asked for and the text
/// has a line break. This holds for text without CRs (as the editor keeps it),
/// unless it starts with U+FEFF and is saved without a BOM.
pub proof fn law_save_then_read_gives_the_text_back(content: Seq<char>, eol: Seq<char>, bom: bool)
    requires
        !content.contains('\r'),
        bom || content.len() == 0 || content[0] as u32 != 0xFEFF,
    ensures
        decode_spec(save_bytes(content, eol, bom)) == Ok::<(Seq<char>, Seq<char>, bool), Seq<char>>(
            (
                content,
                if eol == "crlf"@ && content.contains('\n') {
                    "crlf"@
                } else {
                    "lf"@
                },
                bom,
            ),
        ),
{
    lemma_no_cr_kept(content);
    let t = bodied(content, eol);
    let bytes = save_bytes(content, eol, bom);
    let enc = encode_utf8(t);
    vstd::utf8::encode_utf8_valid_utf8(t);
    vstd::utf8::encode_utf8_decode_utf8(t);
    if eol == "crlf"@ {
        lemma_lf_crlf_lf(content);
        assert(t == replace_all(content, lf(), crlf()));
    } else {
        assert(t == content);
    }
    if bom {
        assert(bytes.take(3) =~= bom_bytes());
        assert(bytes.skip(3) =~= enc);
    } else {
        assert(bytes =~= enc);
        if eol == "crlf"@ {
            if content.len() > 0 {
                lemma_lf_to_crlf_cons(content[0], content.drop_first());
                assert(content =~= seq![content[0]] + content.drop_first());
                if content[0] == '\n' {
                    assert(t[0] == '\r');
                } else {
                    assert(t[0] == content[0]);
                }
            } else {
                assert(t =~= Seq::<char>::empty());
            }
            lemma_no_bom_prefix(t);
        } else {
            lemma_no_bom_prefix(t);
        }
    }
    assert(body_bytes(bytes) == enc);
}

/// Reading a note and saving it unedited writes back the very bytes that were
/// read (BOM and line endings included), for text whose line endings are
/// uniform.
pub proof fn law_read_then_save_restores_bytes(raw: Seq<u8>)
    requires
        decode_spec(raw) is Ok,
        uniform_line_endings(decode_utf8(body_bytes(raw))),
    ensures
        save_bytes(decode_spec(raw)->Ok_0.0, decode_spec(raw)->Ok_0.1, decode_spec(raw)->Ok_0.2) == raw,
{
    let body = body_bytes(raw);
    let t = decode_utf8(body);
    let c = replace_all(t, crlf(), lf());
    vstd::utf8::decode_utf8_encode_utf8(body);
    if contains_sub(t, crlf()) {
        assert(eol_of(t) == "crlf"@);
        lemma_no_cr_left(t, 0);
        assert forall|j: int| 0 <= j < c.len() implies !crate::text::occurs_at(c, crlf(), j) by {
            if crate::text::occurs_at(c, crlf(), j) {
                assert(c.subrange(j, j + 2)[0] == c[j]);
            }
        }
        lemma_replace_absent(c, crlf(), lf(), 0);
        assert(c.skip(0) =~= c);
        lemma_crlf_back(t, 0);
        assert(t.skip(0) =~= t);
        assert(bodied(c, eol_of(t)) == t);
    } else {
        assert(eol_of(t) == "lf"@);
        assert forall|j: int| 0 <= j < t.len() implies !crate::text::occurs_at(t, crlf(), j) by {}
        lemma_replace_absent(t, crlf(), lf(), 0);
        assert(t.skip(0) =~= t);
        assert(c == t);
        assert forall|j: int| 0 <= j < c.len() implies !crate::text::occurs_at(c, crlf(), j) by {}
        lemma_replace_absent(c, crlf(), lf(), 0);
        assert(c.skip(0) =~= c);
        assert("lf"@ != "crlf"@) by {
            reveal_strlit("lf");
            reveal_strlit("crlf");
        }
        assert(bodied(c, eol_of(t)) == t);
    }
    if has_bom(raw) {
        assert(raw =~= bom_bytes() + raw.skip(3));
    } else {
        assert(raw =~= Seq::<u8>::empty() + raw);
    }
}


proof fn lemma_lf_is_not_crlf()
    ensures
        "lf"@ != "crlf"@,
{
    reveal_strlit("lf");
    reveal_strlit("crlf");
    assert("lf"@.len() != "crlf"@.len());
}

/// Saving, reading back and saving again writes the same bytes.
proof fn lemma_saved_file_round_trips(s: Seq<char>, eol: Seq<char>, bom: bool)
    requires
        !s.contains('\r'),
        bom || s.len() == 0 || s[0] as u32 != 0xFEFF,
    ensures
        decode_spec(save_bytes(s, eol, bom)) is Ok,
        save_bytes(
            decode_spec(save_bytes(s, eol, bom))->Ok_0.0,
            decode_spec(save_bytes(s, eol, bom))->Ok_0.1,
            decode_spec(save_bytes(s, eol, bom))->Ok_0.2,
        ) == save_bytes(s, eol, bom),
{
    law_save_then_read_gives_the_text_back(s, eol, bom);
    lemma_no_cr_kept(s);
    lemma_lf_is_not_crlf();
    assert(bodied(s, "lf"@) == s);
    if eol == "crlf"@ && !s.contains('\n') {
        assert forall|j: int| 0 <= j < s.len() implies !crate::text::occurs_at(s, lf(), j) by {
            if crate::text::occurs_at(s, lf(), j) {
                assert(s.subrange(j, j + 1)[0] == s[j]);
            }
        }
        lemma_replace_absent(s, lf(), crlf(), 0);
        assert(s.skip(0) =~= s);
        assert(bodied(s, "crlf"@) == s);
    }
}

/// Reading a file and saving it unedited writes back exactly the file's
/// bytes, for a file that holds a text without CRs written in LF style, or in
/// CRLF style (every LF as CRLF), with or without a BOM.
pub proof fn law_read_then_save_keeps_the_file(s: Seq<char>, crlf_style: bool, bom: bool)
    requires
        !s.contains('\r'),
    ensures
        ({
            let raw = (if bom {
                bom_bytes()
            } else {
                Seq::empty()
            }) + encode_utf8(
                if crlf_style {
                    replace_all(s, lf(), crlf())
                } else {
                    s
                },
            );
            &&& decode_spec(raw) is Ok
            &&& save_bytes(decode_spec(raw)->Ok_0.0, decode_spec(raw)->Ok_0.1, decode_spec(raw)->Ok_0.2) == raw
        }),
{
    let eol = if crlf_style {
        "crlf"@
    } else {
        "lf"@
    };
    lemma_lf_is_not_crlf();
    lemma_no_cr_kept(s);
    assert(bodied(s, eol) == (if crlf_style {
        replace_all(s, lf(), crlf())
    } else {
        s
    }));
    if bom || s.len() == 0 || s[0] as u32 != 0xFEFF {
        lemma_saved_file_round_trips(s, eol, bom);
    } else {
        // An unmarked file whose text starts with U+FEFF reads as a marked one.
        let s1 = s.drop_first();
        assert(s =~= seq![s[0]] + s1);
        assert(!s1.contains('\r')) by {
            if s1.contains('\r') {
                let j = choose|j: int| 0 <= j < s1.len() && s1[j] == '\r';
                assert(s[j + 1] == '\r');
            }
        }
        lemma_no_cr_kept(s1);
        let b = bodied(s, eol);
        let b1 = bodied(s1, eol);
        if crlf_style {
            lemma_lf_to_crlf_cons(s[0], s1);
        }
        assert(s[0] != '\n');
        assert(b =~= seq![s[0]] + b1);
        assert(b[0] == s[0]);
        assert(b.drop_first() =~= b1);
        let v = s[0] as u32;
        assert(v == 0xFEFF);
        assert(vstd::utf8::has_width_3_encoding(v));
        assert(vstd::utf8::leading_byte_width_3(v) == 0xEFu8) by (bit_vector)
            requires
                v == 0xFEFF,
        ;
        assert(vstd::utf8::second_last_continuation_byte(v) == 0xBBu8) by (bit_vector)
            requires
                v == 0xFEFF,
        ;
        assert(vstd::utf8::last_continuation_byte(v) == 0xBFu8) by (bit_vector)
            requires
                v == 0xFEFF,
        ;
        assert(vstd::utf8::encode_scalar(v) =~= bom_bytes());
        assert(encode_utf8(b) == vstd::utf8::encode_scalar(v) + encode_utf8(b1));
        assert(save_bytes(s, eol, false) =~= save_bytes(s1, eol, true));
        lemma_saved_file_round_trips(s1, eol, true);
    }
}

// ---------------------------------------------------------------- vault settings

/// Daily-note settings (`dailyNotes` in `.plainmark/settings.json`).
#[derive(Debug, Clone)]
pub struct DailyNotesSettings {
    pub folder: String,
    pub filename_format: String,
    pub template_path: String,
}

/// Vault-local settings (`.plainmark/settings.json`). A missing or corrupt
/// file, or a missing field, falls back to the defaults.
#[derive(Debug, Clone)]
pub struct VaultSettings {
    pub attachments_dir: String,
    pub daily_notes: DailyNotesSettings,
}

pub open spec fn default_attachments_dir() -> Seq<char> {
    "Attachments"@
}

pub open spec fn default_daily_folder() -> Seq<char> {
    "Daily"@
}

impl VaultSettings {
    /// The settings for the (optional) fields of the settings file: each one
    /// given replaces its default (`Attachments`, `Daily`, `YYYY-MM-DD`,
    /// `Templates/Daily.md`).
    pub fn from_fields(
        attachments_dir: Option<String>,
        folder: Option<String>,
        filename_format: Option<String>,
        template_path: Option<String>,
    ) -> (r: VaultSettings)
        ensures
            r.attachments_dir@ == (match attachments_dir {
                Some(s) => s@,
                None => default_attachments_dir(),
            }),
            r.daily_notes.folder@ == (match folder {
                Some(s) => s@,
                None => default_daily_folder(),
            }),
            r.daily_notes.filename_format@ == (match filename_format {
                Some(s) => s@,
                None => "YYYY-MM-DD"@,
            }),
            r.daily_notes.template_path@ == (match template_path {
                Some(s) => s@,
                None => "Templates/Daily.md"@,
            }),
    {
        VaultSettings {
            attachments_dir: match attachments_dir {
                Some(s) => s,
                None => String::from_str("Attachments"),
            },
            daily_notes: DailyNotesSettings {
                folder: match folder {
                    Some(s) => s,
                    None => String::from_str("Daily"),
                },
                filename_format: match filename_format {
                    Some(s) => s,
                    None => String::from_str("YYYY-MM-DD"),
                },
                template_path: match template_path {
                    Some(s) => s,
                    None => String::from_str("Templates/Daily.md"),
                },
            },
        }
    }

    /// The defaults, used when the settings file is missing or unreadable.
    pub fn defaults() -> (r: VaultSettings)
        ensures
            r.attachments_dir@ == default_attachments_dir(),
            r.daily_notes.folder@ == default_daily_folder(),
            r.daily_notes.filename_format@ == "YYYY-MM-DD"@,
            r.daily_notes.template_path@ == "Templates/Daily.md"@,
    {
        VaultSettings::from_fields(None, None, None, None)
    }
}

/// Every component is an ordinary name: no root, prefix, `.` or `..`.
pub open spec fn all_normal(parts: Seq<crate::paths::PathPartV>) -> bool {
    forall|i: int| 0 <= i < parts.len() ==> (#[trigger] parts[i]) is Normal
}

/// A configured vault-relative path, kept only when it is a non-empty relative
/// path made of ordinary names (trimmed, with forward slashes).
pub open spec fn safe_vault_rel_spec(name: Seq<char>) -> Option<Seq<char>> {
    let t = crate::text::trim(name);
    if t.len() > 0 && all_normal(crate::paths::path_components(t)) {
        Some(crate::paths::forward_slashes(t))
    } else {
        None
    }
}

/// Restrict a configured path to a *relative* subpath of the vault: reject
/// absolute paths and any `..`/`.`/root component, so a hostile settings file
/// cannot redirect reads or writes outside the vault.
pub fn safe_vault_rel(name: &str) -> (r: Option<String>)
    ensures
        r.deep_view() == safe_vault_rel_spec(name@),
{
    let t = crate::text::trim_str(name);
    if t.as_str().unicode_len() == 0 {
        return None;
    }
    let parts = crate::paths::components_of(t.as_str());
    let ghost pv = parts.deep_view();
    let mut i: usize = 0;
    while i < parts.len()
        invariant
            i <= parts.len(),
            pv == parts.deep_view(),
            pv == crate::paths::path_components(t@),
            t@ == crate::text::trim(name@),
            forall|k: int| 0 <= k < i ==> (#[trigger] pv[k]) is Normal,
        decreases parts.len() - i,
    {
        assert(pv[i as int] == parts[i as int].deep_view());
        match &parts[i] {
            crate::paths::PathPart::Normal(_) => {},
            _ => {
                assert(!(pv[i as int] is Normal));
                return None;
            },
        }
        i += 1;
    }
    let v = chars_of(t.as_str());
    let mut from: Vec<char> = Vec::new();
    from.push('\\');
    let mut to: Vec<char> = Vec::new();
    to.push('/');
    assert(from@ =~= seq!['\\']);
    assert(to@ =~= seq!['/']);
    Some(string_from_vec(&replace_exec(&v, &from, &to)))
}

/// The attachments folder to use for a configured one: the configured folder
/// when it is safe, else `Attachments`.
pub fn safe_subdir(name: &str) -> (r: String)
    ensures
        r@ == (match safe_vault_rel_spec(name@) {
            Some(s) => s,
            None => default_attachments_dir(),
        }),
{
    match safe_vault_rel(name) {
        Some(s) => s,
        None => String::from_str("Attachments"),
    }
}

// ---------------------------------------------------------------- attachments

/// The ASCII letters and digits of `s`, in order.
pub open spec fn ascii_alnum_only(s: Seq<char>) -> Seq<char> {
    s.filter(|c: char| crate::text::is_ascii_alnum(c))
}

/// A safe lowercase alphanumeric extension, defaulting to `png` (pasted
/// clipboard images are almost always PNG).
pub open spec fn sanitize_ext_spec(ext: Seq<char>) -> Seq<char> {
    if ascii_alnum_only(ext).len() == 0 {
        "png"@
    } else {
        crate::text::str_lowercase(ascii_alnum_only(ext))
    }
}

/// Reduce an extension to a safe lowercase alphanumeric token.
pub fn sanitize_ext(ext: &str) -> (r: String)
    ensures
        r@ == sanitize_ext_spec(ext@),
{
    let v = chars_of(ext);
    let mut kept = String::new();
    let mut i: usize = 0;
    while i < v.len()
        invariant
            i <= v.len(),
            v@ == ext@,
            kept@ == ascii_alnum_only(v@.take(i as int)),
        decreases v.len() - i,
    {
        let c = v[i];
        proof {
            reveal(Seq::filter);
            assert(v@.take(i + 1).drop_last() =~= v@.take(i as int));
        }
        if ('0' <= c && c <= '9') || ('a' <= c && c <= 'z') || ('A' <= c && c <= 'Z') {
            kept.push(c);
        }
        i += 1;
    }
    assert(v@.take(v.len() as int) =~= v@);
    if kept.as_str().unicode_len() == 0 {
        String::from_str("png")
    } else {
        crate::text::to_lowercase(kept.as_str())
    }
}

pub open spec fn hex_char(d: int) -> char {
    if d < 10 {
        crate::text::digit_char(d)
    } else if d == 10 {
        'a'
    } else if d == 11 {
        'b'
    } else if d == 12 {
        'c'
    } else if d == 13 {
        'd'
    } else if d == 14 {
        'e'
    } else {
        'f'
    }
}

/// The last `w` lowercase hex digits of `v`, zero-padded.
pub open spec fn hex_digits(v: nat, w: nat) -> Seq<char>
    decreases w,
{
    if w == 0 {
        Seq::empty()
    } else {
        hex_digits(v / 16, (w - 1) as nat).push(hex_char((v % 16) as int))
    }
}

fn hex_char_exec(d: u64) -> (c: char)
    requires
        d < 16,
    ensures
        c == hex_char(d as int),
{
    if d < 10 {
        let s = crate::text::decimal_string(d as u128);
        let v = chars_of(s.as_str());
        assert(v@ =~= seq![crate::text::digit_char(d as int)]);
        v[0]
    } else if d == 10 {
        'a'
    } else if d == 11 {
        'b'
    } else if d == 12 {
        'c'
    } else if d == 13 {
        'd'
    } else if d == 14 {
        'e'
    } else {
        'f'
    }
}

fn hex_fixed(v: u64, w: usize) -> (r: Vec<char>)
    ensures
        r@ == hex_digits(v as nat, w as nat),
    decreases w,
{
    if w == 0 {
        Vec::new()
    } else {
        let mut r = hex_fixed(v / 16, w - 1);
        r.push(hex_char_exec(v % 16));
        r
    }
}

/// What std's `DefaultHasher` (made by `new`, hence with its fixed keys)
/// finishes with after hashing the byte slice `bytes`.
pub uninterp spec fn default_hash(bytes: Seq<u8>) -> u64;

/// `DefaultHasher::new`, `<[u8] as Hash>::hash`, `Hasher::finish`. The
/// contract claims only that the value is the (named) hash of `bytes`: std
/// documents every hasher made by `new` as the same, so the value depends on
/// the bytes alone (for one build of the program).
#[verifier::external_body]
fn hash_of(bytes: &[u8]) -> (r: u64)
    ensures
        r == default_hash(bytes@),
{
    let mut hasher = std::collections::hash_map::DefaultHasher::new();
    bytes.hash(&mut hasher);
    hasher.finish()
}

/// The 8-hex-digit tag for a hash: its low 32 bits in lowercase hex.
pub open spec fn hash_tag(h: u64) -> Seq<char> {
    hex_digits((h as nat) % 0x1_0000_0000, 8)
}

/// A short, stable hex tag derived from the bytes, to keep names
/// collision-safe even when two pastes land in the same millisecond.
pub fn short_hash(bytes: &[u8]) -> (r: String)
    ensures
        r@ == hash_tag(default_hash(bytes@)),
{
    let h = hash_of(bytes);
    tag_of_hash(h)
}

/// The tag of a given hash value.
pub fn tag_of_hash(h: u64) -> (r: String)
    ensures
        r@ == hash_tag(h),
{
    let low = h % 0x1_0000_0000;
    string_from_vec(&hex_fixed(low, 8))
}

// ---------------------------------------------------------------- images

/// What `base64`'s standard engine (padded, `+/` alphabet) encodes `bytes` as.
pub uninterp spec fn base64_standard(bytes: Seq<u8>) -> Seq<char>;

/// `base64::engine::general_purpose::STANDARD.encode`. The contract claims only
/// that the text is the (named) standard encoding of `bytes`.
#[verifier::external_body]
fn base64_encode(bytes: &[u8]) -> (r: String)
    ensures
        r@ == base64_standard(bytes@),
{
    base64::engine::general_purpose::STANDARD.encode(bytes)
}

/// The MIME type for an image extension (letter case ignored).
pub open spec fn mime_spec(ext: Option<Seq<char>>) -> Seq<char> {
    match ext {
        Some(e) => if crate::text::eq_ignore_ascii_case(e, "png"@) {
            "image/png"@
        } else if crate::text::eq_ignore_ascii_case(e, "jpg"@) || crate::text::eq_ignore_ascii_case(e, "jpeg"@) {
            "image/jpeg"@
        } else if crate::text::eq_ignore_ascii_case(e, "gif"@) {
            "image/gif"@
        } else if crate::text::eq_ignore_ascii_case(e, "webp"@) {
            "image/webp"@
        } else if crate::text::eq_ignore_ascii_case(e, "svg"@) {
            "image/svg+xml"@
        } else if crate::text::eq_ignore_ascii_case(e, "bmp"@) {
            "image/bmp"@
        } else if crate::text::eq_ignore_ascii_case(e, "avif"@) {
            "image/avif"@
        } else {
            "application/octet-stream"@
        },
        None => "application/octet-stream"@,
    }
}

/// The MIME type for an image path, by its extension.
pub fn mime_for(path: &str) -> (r: String)
    ensures
        r@ == mime_spec(crate::paths::path_extension(path@)),
{
    match crate::paths::extension_of(path) {
        Some(e) => {
            let e = e.as_str();
            if crate::text::str_eq_ignore_ascii_case(e, "png") {
                String::from_str("image/png")
            } else if crate::text::str_eq_ignore_ascii_case(e, "jpg")
                || crate::text::str_eq_ignore_ascii_case(e, "jpeg") {
                String::from_str("image/jpeg")
            } else if crate::text::str_eq_ignore_ascii_case(e, "gif") {
                String::from_str("image/gif")
            } else if crate::text::str_eq_ignore_ascii_case(e, "webp") {
                String::from_str("image/webp")
            } else if crate::text::str_eq_ignore_ascii_case(e, "svg") {
                String::from_str("image/svg+xml")
            } else if crate::text::str_eq_ignore_ascii_case(e, "bmp") {
                String::from_str("image/bmp")
            } else if crate::text::str_eq_ignore_ascii_case(e, "avif") {
                String::from_str("image/avif")
            } else {
                String::from_str("application/octet-stream")
            }
        },
        None => String::from_str("application/octet-stream"),
    }
}

/// An image's bytes as a `data:` URL, so the webview can render it without
/// any direct filesystem access.
pub fn image_data_url(path: &str, bytes: &[u8]) -> (r: String)
    ensures
        r@ == "data:"@ + mime_spec(crate::paths::path_extension(path@)) + ";base64,"@
            + base64_standard(bytes@),
{
    let mut out = String::from_str("data:");
    let mime = mime_for(path);
    crate::text::push_str(&mut out, mime.as_str());
    crate::text::push_str(&mut out, ";base64,");
    let encoded = base64_encode(bytes);
    crate::text::push_str(&mut out, encoded.as_str());
    out
}

// ---------------------------------------------------------------- vault scoping

/// Ensure `target` resolves to a location inside `vault`, given their canonical
/// forms (or the messages of the errors canonicalizing them gave). Returns the
/// canonical target to use.
pub fn ensure_within(canonical_vault: Result<String, String>, canonical_target: Result<String, String>) -> (r:
    AppResult<String>)
    ensures
        match (canonical_vault, canonical_target) {
            (Err(e), _) => r matches Err(AppError::InvalidPath(m)) && m@ == e@,
            (Ok(_), Err(e)) => r matches Err(AppError::InvalidPath(m)) && m@ == e@,
            (Ok(v), Ok(t)) => if crate::paths::path_starts_with(t@, v@) {
                r matches Ok(p) && p@ == t@
            } else {
                r matches Err(AppError::OutsideVault)
            },
        },
{
    match canonical_vault {
        Err(e) => Err(AppError::InvalidPath(e)),
        Ok(v) => match canonical_target {
            Err(e) => Err(AppError::InvalidPath(e)),
            Ok(t) => {
                if crate::paths::path_has_prefix(t.as_str(), v.as_str()) {
                    Ok(t)
                } else {
                    Err(AppError::OutsideVault)
                }
            },
        },
    }
}


/// The file name for an attachment: `{now}-{tag}.{ext}`, or, for a non-zero
/// `counter`, `{now}-{tag}-{counter}.{ext}`.
pub open spec fn attachment_name(now: u128, tag: Seq<char>, ext: Seq<char>, counter: nat) -> Seq<char> {
    if counter == 0 {
        crate::text::decimal(now as nat) + seq!['-'] + tag + seq!['.'] + ext
    } else {
        crate::text::decimal(now as nat) + seq!['-'] + tag + seq!['-'] + crate::text::decimal(counter)
            + seq!['.'] + ext
    }
}

/// Different counters give different names.
proof fn lemma_attachment_name_injective(now: u128, tag: Seq<char>, ext: Seq<char>, a: nat, b: nat)
    requires
        attachment_name(now, tag, ext, a) == attachment_name(now, tag, ext, b),
    ensures
        a == b,
{
    let p = crate::text::decimal(now as nat) + seq!['-'] + tag;
    let na = attachment_name(now, tag, ext, a);
    let nb = attachment_name(now, tag, ext, b);
    if a == 0 && b != 0 {
        assert(na[p.len() as int] == '.');
        assert(nb[p.len() as int] == '-');
    } else if a != 0 && b == 0 {
        assert(nb[p.len() as int] == '.');
        assert(na[p.len() as int] == '-');
    } else if a != 0 && b != 0 {
        let da = crate::text::decimal(a);
        let db = crate::text::decimal(b);
        assert(na.len() == p.len() + 1 + da.len() + 1 + ext.len());
        assert(nb.len() == p.len() + 1 + db.len() + 1 + ext.len());
        assert(da.len() == db.len());
        assert(na.subrange(p.len() + 1int, p.len() + 1int + da.len()) =~= da);
        assert(nb.subrange(p.len() + 1int, p.len() + 1int + db.len()) =~= db);
        crate::text::lemma_decimal_injective(a, b);
    }
}

/// Among the first `m + 1` counters, some name is free, unless `taken` holds
/// more than `m` names.
proof fn lemma_free_name(now: u128, tag: Seq<char>, ext: Seq<char>, taken: Seq<Seq<char>>, m: nat)
    requires
        forall|c: nat| c <= m ==> taken.contains(#[trigger] attachment_name(now, tag, ext, c)),
    ensures
        m < taken.len(),
{
    let range = vstd::set_lib::set_int_range(0, m + 1int);
    let f = |i: int| attachment_name(now, tag, ext, i as nat);
    vstd::set_lib::lemma_int_range(0, m + 1int);
    assert(vstd::relations::injective_on(f, range)) by {
        assert forall|x: int, y: int| range.contains(x) && range.contains(y) && #[trigger] f(x) == #[trigger] f(y) implies x == y by {
            lemma_attachment_name_injective(now, tag, ext, x as nat, y as nat);
        }
    }
    let img = range.map(f);
    vstd::set_lib::lemma_map_size(range, img, f);
    assert(img.subset_of(taken.to_set())) by {
        assert forall|n: Seq<char>| img.contains(n) implies taken.to_set().contains(n) by {
            let i = choose|i: int| range.contains(i) && f(i) == n;
            assert(taken.contains(attachment_name(now, tag, ext, i as nat)));
        }
    }
    taken.lemma_cardinality_of_set();
    vstd::seq_lib::seq_to_set_is_finite(taken);
    vstd::set_lib::lemma_len_subset(img, taken.to_set());
}

/// The result of saving a pasted/dropped attachment: a vault-relative,
/// forward-slash path suitable for an `![[...]]` embed.
#[derive(Debug)]
pub struct SavedAttachment {
    pub relative_path: String,
}

/// Where an attachment goes: the folder (relative to the vault) and the file
/// name, with the saved attachment to report once the bytes are written.
pub struct AttachmentTarget {
    pub dir_name: String,
    pub file_name: String,
    pub saved: SavedAttachment,
}

/// The least counter whose name is not taken.
pub open spec fn is_first_free(now: u128, tag: Seq<char>, ext: Seq<char>, taken: Seq<Seq<char>>, c: nat) -> bool {
    &&& !taken.contains(attachment_name(now, tag, ext, c))
    &&& forall|d: nat| d < c ==> taken.contains(#[trigger] attachment_name(now, tag, ext, d))
}

/// Name an attachment: in the configured folder (or `Attachments` when that
/// is unsafe), `{now}-{tag}.{ext}` with the extension sanitized, bumping a
/// counter only while the candidate name is already taken in that folder.
pub fn attachment_target(
    attachments_dir: &str,
    tag: &str,
    ext: &str,
    now_millis: u128,
    taken: &Vec<String>,
) -> (r: AttachmentTarget)
    ensures
        r.dir_name@ == (match safe_vault_rel_spec(attachments_dir@) {
            Some(s) => s,
            None => default_attachments_dir(),
        }),
        exists|c: nat|
            is_first_free(now_millis, tag@, sanitize_ext_spec(ext@), taken.deep_view(), c)
                && r.file_name@ == #[trigger] attachment_name(now_millis, tag@, sanitize_ext_spec(ext@), c),
        r.saved.relative_path@ == r.dir_name@ + seq!['/'] + r.file_name@,
{
    let dir_name = safe_subdir(attachments_dir);
    let clean_ext = sanitize_ext(ext);
    let ghost tv = taken.deep_view();
    let ghost e = clean_ext@;
    let mut counter: usize = 0;
    loop
        invariant
            counter <= taken.len(),
            tv == taken.deep_view(),
            e == clean_ext@,
            e == sanitize_ext_spec(ext@),
            dir_name@ == (match safe_vault_rel_spec(attachments_dir@) {
                Some(s) => s,
                None => default_attachments_dir(),
            }),
            forall|d: nat| d < counter ==> tv.contains(#[trigger] attachment_name(now_millis, tag@, e, d)),
        decreases taken.len() - counter,
    {
        let mut name = crate::text::decimal_string(now_millis);
        crate::text::push_str(&mut name, "-");
        crate::text::push_str(&mut name, tag);
        if counter > 0 {
            crate::text::push_str(&mut name, "-");
            let cs = crate::text::decimal_string(counter as u128);
            crate::text::push_str(&mut name, cs.as_str());
        }
        crate::text::push_str(&mut name, ".");
        crate::text::push_str(&mut name, clean_ext.as_str());
        proof {
            reveal_strlit("-");
            reveal_strlit(".");
            assert(name@ =~= attachment_name(now_millis, tag@, e, counter as nat));
        }
        let mut k: usize = 0;
        let mut hit = false;
        while k < taken.len()
            invariant
                k <= taken.len(),
                tv == taken.deep_view(),
                !hit ==> forall|j: int| 0 <= j < k ==> tv[j] != name@,
                hit ==> tv.contains(name@),
            decreases taken.len() - k,
        {
            assert(tv[k as int] == taken[k as int]@);
            if crate::text::str_eq(taken[k].as_str(), name.as_str()) {
                hit = true;
                assert(tv[k as int] == name@);
            }
            k += 1;
        }
        if !hit {
            assert(!tv.contains(name@));
            let mut rel = crate::text::copy_string(&dir_name);
            crate::text::push_str(&mut rel, "/");
            crate::text::push_str(&mut rel, name.as_str());
            proof {
                reveal_strlit("/");
                assert(is_first_free(now_millis, tag@, e, tv, counter as nat));
            }
            return AttachmentTarget {
                dir_name,
                file_name: name,
                saved: SavedAttachment { relative_path: rel },
            };
        }
        proof {
            if counter == taken.len() {
                assert forall|d: nat| d <= counter implies tv.contains(#[trigger] attachment_name(now_millis, tag@, e, d)) by {}
                lemma_free_name(now_millis, tag@, e, tv, counter as nat);
            }
        }
        counter += 1;
    }
}

/// Where a pasted or dropped image goes (see [`attachment_target`]), its name
/// tagged with a short hash of its bytes. Writing the bytes there (atomically)
/// is the caller's part.
pub fn save_attachment(
    attachments_dir: &str,
    bytes: &[u8],
    ext: &str,
    now_millis: u128,
    taken: &Vec<String>,
) -> (r: AttachmentTarget)
    ensures
        ({
            let tag = hash_tag(default_hash(bytes@));
            &&& r.dir_name@ == (match safe_vault_rel_spec(attachments_dir@) {
                Some(s) => s,
                None => default_attachments_dir(),
            })
            &&& exists|c: nat|
                is_first_free(now_millis, tag, sanitize_ext_spec(ext@), taken.deep_view(), c)
                    && r.file_name@ == #[trigger] attachment_name(now_millis, tag, sanitize_ext_spec(ext@), c)
            &&& r.saved.relative_path@ == r.dir_name@ + seq!['/'] + r.file_name@
        }),
{
    let h = hash_of(bytes);
    let tag = tag_of_hash(h);
    attachment_target(attachments_dir, tag.as_str(), ext, now_millis, taken)
}

} // verus!
