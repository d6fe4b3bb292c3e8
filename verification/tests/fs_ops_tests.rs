use plainmark::error::AppError;
use plainmark::fs_ops::{
    attachment_target, decode_note, ensure_within, image_data_url, mime_for, safe_subdir, safe_vault_rel,
    sanitize_ext, save_attachment, save_note, short_hash, tag_of_hash, VaultSettings,
};

#[test]
fn decode_strips_bom_and_normalizes_crlf() {
    let mut raw = vec![0xEF, 0xBB, 0xBF];
    raw.extend_from_slice(b"line1\r\nline2\r\n");
    let note = decode_note(&raw).unwrap();
    assert_eq!(note.content, "line1\nline2\n");
    assert_eq!(note.eol, "crlf");
    assert!(note.bom);
}

#[test]
fn decode_plain_lf_note() {
    let note = decode_note(&b"a\nb\n".to_vec()).unwrap();
    assert_eq!(note.content, "a\nb\n");
    assert_eq!(note.eol, "lf");
    assert!(!note.bom);
}

#[test]
fn decode_rejects_invalid_utf8() {
    match decode_note(&vec![0x61, 0xFF, 0x62]) {
        Err(AppError::InvalidPath(m)) => assert!(m.starts_with("note is not valid UTF-8: "), "{m}"),
        other => panic!("unexpected {other:?}"),
    }
}

#[test]
fn read_then_save_round_trips_bom_and_crlf() {
    let mut original = vec![0xEF, 0xBB, 0xBF];
    original.extend_from_slice(b"# Title\r\n\r\nbody line\r\n");
    let note = decode_note(&original).unwrap();
    assert_eq!(save_note(&note.content, &note.eol, note.bom), original);
}

#[test]
fn paste_into_crlf_bom_note_changes_only_the_inserted_line() {
    let mut original = vec![0xEF, 0xBB, 0xBF];
    original.extend_from_slice(b"# Title\r\n\r\nbody line\r\n");
    let note = decode_note(&original).unwrap();
    let edited = note.content.replace("body line", "![[Attachments/x.png]]\nbody line");
    let mut expected = vec![0xEF, 0xBB, 0xBF];
    expected.extend_from_slice(b"# Title\r\n\r\n![[Attachments/x.png]]\r\nbody line\r\n");
    assert_eq!(save_note(&edited, &note.eol, note.bom), expected);
}

#[test]
fn save_plain_lf_stays_plain() {
    assert_eq!(save_note("a\nb\nc\n", "lf", false), b"a\nb\nc\n".to_vec());
    // Stray CRLF in editor content is normalized.
    assert_eq!(save_note("a\r\nb", "lf", false), b"a\nb".to_vec());
}

#[test]
fn mixed_line_endings_save_in_the_detected_style() {
    let note = decode_note(&b"a\r\nb\n".to_vec()).unwrap();
    assert_eq!(note.eol, "crlf");
    assert_eq!(save_note(&note.content, &note.eol, note.bom), b"a\r\nb\r\n".to_vec());
}

#[test]
fn safe_vault_rel_keeps_only_relative_names() {
    assert_eq!(safe_vault_rel("media/pics").as_deref(), Some("media/pics"));
    assert_eq!(safe_vault_rel("  Journal/Days  ").as_deref(), Some("Journal/Days"));
    assert_eq!(safe_vault_rel("a\\b").as_deref(), Some("a/b"));
    assert_eq!(safe_vault_rel("../escape"), None);
    assert_eq!(safe_vault_rel("/abs"), None);
    assert_eq!(safe_vault_rel("./here"), None);
    assert_eq!(safe_vault_rel("   "), None);
}

#[test]
fn safe_subdir_falls_back_to_attachments() {
    assert_eq!(safe_subdir("../escape"), "Attachments");
    assert_eq!(safe_subdir("media/pics"), "media/pics");
}

#[test]
fn sanitize_ext_filters_and_lowercases() {
    assert_eq!(sanitize_ext("PNG"), "png");
    assert_eq!(sanitize_ext(".j-p_g"), "jpg");
    assert_eq!(sanitize_ext(""), "png");
    assert_eq!(sanitize_ext("!!"), "png");
}

#[test]
fn hash_tag_is_low_32_bits_in_hex() {
    assert_eq!(tag_of_hash(0x1234_5678_9abc_def0), "9abcdef0");
    assert_eq!(tag_of_hash(0x2a), "0000002a");
    let h = short_hash(b"collide");
    assert_eq!(h.len(), 8);
    assert!(h.chars().all(|c| c.is_ascii_hexdigit() && !c.is_ascii_uppercase()));
    assert_eq!(h, short_hash(b"collide"));
    assert_ne!(short_hash(b"collide"), short_hash(b"collides"));
}

#[test]
fn attachment_names_bump_a_counter_only_when_taken() {
    let t = attachment_target("Attachments", "abcd0123", "PNG", 42, &vec![]);
    assert_eq!(t.dir_name, "Attachments");
    assert_eq!(t.file_name, "42-abcd0123.png");
    assert_eq!(t.saved.relative_path, "Attachments/42-abcd0123.png");

    let taken = vec!["42-abcd0123.png".to_string(), "42-abcd0123-1.png".to_string()];
    let t = attachment_target("../escape", "abcd0123", "png", 42, &taken);
    assert_eq!(t.file_name, "42-abcd0123-2.png");
    assert_eq!(t.saved.relative_path, "Attachments/42-abcd0123-2.png");
}

#[test]
fn save_attachment_writes_under_attachments_with_hash_tag() {
    let t = save_attachment("Attachments", b"\x89PNG\r\n\x1a\nfake", "PNG", 1_700_000_000_000, &vec![]);
    assert!(t.saved.relative_path.starts_with("Attachments/1700000000000-"));
    assert!(t.saved.relative_path.ends_with(".png"));
    assert_eq!(t.file_name.len(), "1700000000000-".len() + 8 + ".png".len());
    let tag = short_hash(b"\x89PNG\r\n\x1a\nfake");
    assert_eq!(t.file_name, format!("1700000000000-{}.png", tag));
}

#[test]
fn save_attachment_honors_configured_dir() {
    let t = save_attachment("media/pics", b"x", "png", 1, &vec![]);
    assert!(t.saved.relative_path.starts_with("media/pics/"));
}

#[test]
fn mime_types_by_extension() {
    assert_eq!(mime_for("/v/pic.png"), "image/png");
    assert_eq!(mime_for("/v/pic.JPG"), "image/jpeg");
    assert_eq!(mime_for("/v/pic.jpeg"), "image/jpeg");
    assert_eq!(mime_for("/v/pic.svg"), "image/svg+xml");
    assert_eq!(mime_for("/v/pic.avif"), "image/avif");
    assert_eq!(mime_for("/v/pic.tiff"), "application/octet-stream");
    assert_eq!(mime_for("/v/noext"), "application/octet-stream");
}

#[test]
fn read_image_data_url_encodes_mime_and_bytes() {
    assert_eq!(image_data_url("/v/pic.png", b"abc"), "data:image/png;base64,YWJj");
}

#[test]
fn ensure_within_accepts_inside_and_rejects_outside() {
    let inside = ensure_within(Ok("/v".to_string()), Ok("/v/note.md".to_string()));
    assert_eq!(inside.unwrap(), "/v/note.md");
    assert!(matches!(
        ensure_within(Ok("/v".to_string()), Ok("/secret.md".to_string())),
        Err(AppError::OutsideVault)
    ));
    // A sibling that merely shares a prefix of the name is outside.
    assert!(matches!(
        ensure_within(Ok("/v".to_string()), Ok("/vault2/a.md".to_string())),
        Err(AppError::OutsideVault)
    ));
    assert!(matches!(
        ensure_within(Err("gone".to_string()), Ok("/v/a.md".to_string())),
        Err(AppError::InvalidPath(m)) if m == "gone"
    ));
    assert!(matches!(
        ensure_within(Ok("/v".to_string()), Err("path has no parent".to_string())),
        Err(AppError::InvalidPath(m)) if m == "path has no parent"
    ));
}

#[test]
fn vault_settings_defaults_and_fields() {
    let d = VaultSettings::defaults();
    assert_eq!(d.attachments_dir, "Attachments");
    assert_eq!(d.daily_notes.folder, "Daily");
    assert_eq!(d.daily_notes.filename_format, "YYYY-MM-DD");
    assert_eq!(d.daily_notes.template_path, "Templates/Daily.md");
    let s = VaultSettings::from_fields(Some("media".to_string()), None, Some("YYYY_MM_DD".to_string()), None);
    assert_eq!(s.attachments_dir, "media");
    assert_eq!(s.daily_notes.folder, "Daily");
    assert_eq!(s.daily_notes.filename_format, "YYYY_MM_DD");
}

#[test]
fn read_then_save_keeps_every_uniform_file() {
    for text in ["", "a\nb\n", "\u{FEFF}lead\nx", "no newline"] {
        for crlf in [false, true] {
            for bom in [false, true] {
                let body = if crlf { text.replace('\n', "\r\n") } else { text.to_string() };
                let mut raw = if bom { vec![0xEF, 0xBB, 0xBF] } else { vec![] };
                raw.extend_from_slice(body.as_bytes());
                let note = decode_note(&raw).unwrap();
                assert_eq!(save_note(&note.content, &note.eol, note.bom), raw);
            }
        }
    }
}
