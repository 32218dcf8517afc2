use base64::Engine;
use journal_store::crypto::{decrypt_data, encrypt_data, get_key, open, seal_with_nonce};
use journal_store::codec::push_quoted;
use journal_store::export::{remove_from_vec, render_markdown};
use journal_store::service::{
    create_record, filter_by_tag, journal_from_lookup, open_journal, records_from_files,
    seal_journal, seal_journal_with_nonce, select_records, storage_status, ENVELOPE_EXTENSION,
};
use journal_store::types::{Config, EncryptedFile, Journal, JournalError};

const SECRET: &str = "0123456789abcdef0123456789abcdef";

fn key() -> [u8; 32] {
    get_key(SECRET.to_string()).unwrap()
}

fn s(x: &str) -> String {
    x.to_string()
}

fn trip(id: &str) -> Journal {
    Journal::new(
        s(id),
        Some(s("Trip")),
        Some(s("Went hiking")),
        vec![s("travel"), s("outdoors")],
    )
}

#[test]
fn canonical_text_is_exact() {
    let j = Journal::new(s("a"), Some(s("T")), None, vec![s("x"), s("y")]);
    let text = j.to_canonical();
    assert_eq!(
        String::from_utf8(text).unwrap(),
        "{\"id\":\"a\",\"title\":\"T\",\"body\":null,\"tags\":[\"x\",\"y\"]}"
    );
}

#[test]
fn canonical_text_escapes_quotes_and_controls() {
    let j = Journal::new(s("i"), None, Some(s("say \"hi\"\\\n")), vec![]);
    let text = String::from_utf8(j.to_canonical()).unwrap();
    assert_eq!(
        text,
        "{\"id\":\"i\",\"title\":null,\"body\":\"say \\\"hi\\\"\\\\\\n\",\"tags\":[]}"
    );
}

#[test]
fn canonical_text_round_trips() {
    let records = vec![
        trip("id-1"),
        Journal::new(s(""), None, None, vec![]),
        Journal::new(s("é✓"), Some(s("tab\there")), Some(s("\u{1}\u{1f}")), vec![s(""), s("a,b")]),
        Journal::new(s("x"), Some(s("dup")), None, vec![s("t"), s("t")]),
    ];
    for j in records {
        let text = j.to_canonical();
        assert_eq!(Journal::from_canonical(&text), Some(j));
    }
}

#[test]
fn canonical_text_rejects_other_forms() {
    let spaced = b"{ \"id\":\"a\",\"title\":null,\"body\":null,\"tags\":[]}";
    assert_eq!(Journal::from_canonical(spaced), None);
    let reordered = b"{\"title\":null,\"id\":\"a\",\"body\":null,\"tags\":[]}";
    assert_eq!(Journal::from_canonical(reordered), None);
    let trailing = b"{\"id\":\"a\",\"title\":null,\"body\":null,\"tags\":[]}x";
    assert_eq!(Journal::from_canonical(trailing), None);
    assert_eq!(Journal::from_canonical(b""), None);
    let ok = b"{\"id\":\"a\",\"title\":null,\"body\":null,\"tags\":[]}";
    assert_eq!(
        Journal::from_canonical(ok),
        Some(Journal::new(s("a"), None, None, vec![]))
    );
}

#[test]
fn envelope_text_is_exact_and_round_trips() {
    let e = EncryptedFile::new(s("AAEC"), s("AAAAAAAAAAAAAAAA"));
    let text = e.to_file_bytes();
    assert_eq!(
        String::from_utf8(text.clone()).unwrap(),
        "{\"content\":\"AAEC\",\"nonce\":\"AAAAAAAAAAAAAAAA\"}"
    );
    assert_eq!(EncryptedFile::from_file_bytes(&text), Ok(e));
}

#[test]
fn envelope_rejects_garbage() {
    assert_eq!(
        EncryptedFile::from_file_bytes(b"not json"),
        Err(JournalError::DecodeError)
    );
    assert_eq!(
        EncryptedFile::from_file_bytes(b"{\"content\":\"a\"}"),
        Err(JournalError::DecodeError)
    );
}

#[test]
fn key_must_be_exactly_32_bytes() {
    assert_eq!(get_key(s(SECRET)).unwrap().to_vec(), SECRET.as_bytes().to_vec());
    assert_eq!(get_key(s(&SECRET[..31])), Err(JournalError::CryptoError));
    assert_eq!(get_key(format!("{}x", SECRET)), Err(JournalError::CryptoError));
    assert_eq!(get_key(s("")), Err(JournalError::CryptoError));
    let cfg = Config::new(s("/tmp/store"), s("short"));
    assert_eq!(cfg.key(), Err(JournalError::CryptoError));
    let cfg = Config::new(s("/tmp/store"), s(SECRET));
    assert_eq!(cfg.key(), Ok(key()));
}

#[test]
fn seal_with_nonce_encodes_nonce_and_appends_tag() {
    let nonce = [0u8; 12];
    let e = seal_with_nonce(b"hello", &key(), &nonce).unwrap();
    assert_eq!(e.nonce, "AAAAAAAAAAAAAAAA");
    // 5 plaintext bytes and a 16-byte tag make 21 bytes, 28 base64 characters.
    assert_eq!(e.content.len(), 28);
    assert_ne!(e.content, "aGVsbG8=");
    assert_eq!(open(&e.content, &e.nonce, &key()), Ok(b"hello".to_vec()));
}

#[test]
fn encrypt_then_decrypt_round_trips() {
    let (c, n) = encrypt_data("journal text ✓", &key()).unwrap();
    assert_eq!(decrypt_data(&c, &n, &key()), Ok(s("journal text ✓")));
}

#[test]
fn fresh_nonces_differ() {
    let (c1, n1) = encrypt_data("same", &key()).unwrap();
    let (c2, n2) = encrypt_data("same", &key()).unwrap();
    assert_ne!(n1, n2);
    assert_ne!(c1, c2);
}

#[test]
fn wrong_key_fails() {
    let (c, n) = encrypt_data("secret", &key()).unwrap();
    let other = get_key(s("ffffffffffffffffffffffffffffffff")).unwrap();
    assert_eq!(decrypt_data(&c, &n, &other), Err(JournalError::CryptoError));
}

fn flip_bit(text: &str, byte: usize, bit: u8) -> String {
    let engine = base64::engine::general_purpose::STANDARD;
    let mut raw = engine.decode(text).unwrap();
    raw[byte] ^= 1 << bit;
    engine.encode(raw)
}

#[test]
fn tampering_fails() {
    let (c, n) = encrypt_data("tamper me", &key()).unwrap();
    for byte in 0..25 {
        let bad = flip_bit(&c, byte, (byte % 8) as u8);
        assert_eq!(decrypt_data(&bad, &n, &key()), Err(JournalError::CryptoError));
    }
    for byte in 0..12 {
        let bad = flip_bit(&n, byte, 3);
        assert_eq!(decrypt_data(&c, &bad, &key()), Err(JournalError::CryptoError));
    }
}

#[test]
fn malformed_base64_and_nonce_fail() {
    let (c, n) = encrypt_data("x", &key()).unwrap();
    assert_eq!(decrypt_data("%%%", &n, &key()), Err(JournalError::CryptoError));
    assert_eq!(decrypt_data(&c, "AAAA", &key()), Err(JournalError::CryptoError));
}

#[test]
fn non_text_plaintext_fails() {
    let e = seal_with_nonce(&[0xff, 0xfe], &key(), &[7u8; 12]).unwrap();
    assert_eq!(decrypt_data(&e.content, &e.nonce, &key()), Err(JournalError::CryptoError));
}

#[test]
fn sealed_record_opens_to_itself() {
    let j = trip("fixed-id");
    let file = seal_journal_with_nonce(&j, &key(), &[9u8; 12]).unwrap();
    assert_eq!(open_journal(&file, &key()), Ok(j.clone()));
    let file = seal_journal(&j, &key()).unwrap();
    assert_eq!(open_journal(&file, &key()), Ok(j));
}

#[test]
fn open_journal_errors() {
    assert_eq!(open_journal(b"garbage", &key()), Err(JournalError::DecodeError));
    let file = seal_journal(&trip("a"), &key()).unwrap();
    let other = get_key(s("ffffffffffffffffffffffffffffffff")).unwrap();
    assert_eq!(open_journal(&file, &other), Err(JournalError::CryptoError));
    let not_a_record = seal_with_nonce(b"plain words", &key(), &[1u8; 12]).unwrap();
    assert_eq!(
        open_journal(&not_a_record.to_file_bytes(), &key()),
        Err(JournalError::DecodeError)
    );
}

#[test]
fn created_ids_are_distinct() {
    let mut ids: Vec<String> = Vec::new();
    for _ in 0..50 {
        let (id, _file) = create_record(None, None, vec![], &key()).unwrap();
        assert_eq!(id.len(), 36);
        assert!(!ids.contains(&id));
        ids.push(id);
    }
}

#[test]
fn missing_file_is_not_found() {
    assert_eq!(journal_from_lookup(None, &key()), Err(JournalError::NotFound));
}

#[test]
fn tag_filter_keeps_order_and_exact_matches() {
    let a = Journal::new(s("1"), None, None, vec![s("work"), s("x")]);
    let b = Journal::new(s("2"), None, None, vec![s("Work")]);
    let c = Journal::new(s("3"), None, None, vec![s("work")]);
    let all = vec![a.clone(), b.clone(), c.clone()];
    assert_eq!(filter_by_tag(&all, &s("work")), vec![a.clone(), c.clone()]);
    assert_eq!(select_records(all.clone(), Some(s("Work"))), vec![b.clone()]);
    assert_eq!(select_records(all.clone(), Some(s("none"))), Vec::<Journal>::new());
    assert_eq!(select_records(all.clone(), None), all);
}

#[test]
fn scan_opens_every_file_or_fails() {
    let k = key();
    let files = vec![
        seal_journal(&trip("1"), &k).unwrap(),
        seal_journal(&trip("2"), &k).unwrap(),
    ];
    assert_eq!(records_from_files(&files, &k), Ok(vec![trip("1"), trip("2")]));
    let mut bad = files.clone();
    bad.push(b"broken".to_vec());
    assert_eq!(records_from_files(&bad, &k), Err(JournalError::DecodeError));
    assert_eq!(records_from_files(&vec![], &k), Ok(vec![]));
}

#[test]
fn export_blocks_are_exact() {
    let records = vec![
        trip("1"),
        Journal::new(s("2"), None, None, vec![]),
        Journal::new(s("3"), None, Some(s("only body")), vec![]),
    ];
    let text = String::from_utf8(render_markdown(&records)).unwrap();
    assert_eq!(
        text,
        "# Trip\n\nWent hiking\n\n# Untitled\n\n\n\n# Untitled\n\nonly body\n\n"
    );
    assert_eq!(render_markdown(&vec![]), Vec::<u8>::new());
}

#[test]
fn storage_checks() {
    assert_eq!(storage_status(false, true), Err(JournalError::NotADirectory));
    assert_eq!(storage_status(false, false), Err(JournalError::NotADirectory));
    assert_eq!(storage_status(true, false), Err(JournalError::PermissionDenied));
    assert_eq!(storage_status(true, true), Ok(()));
    assert_eq!(ENVELOPE_EXTENSION, "json");
}

#[test]
fn remove_tag_from_list() {
    let tags = vec![s("a"), s("b"), s("a"), s("c")];
    assert_eq!(remove_from_vec(tags, s("a")), vec![s("b"), s("c")]);
    assert_eq!(remove_from_vec(vec![], s("a")), Vec::<String>::new());
}

#[test]
fn end_to_end_trip_scenario() {
    let k = key();
    let (id, file) = create_record(
        Some(s("Trip")),
        Some(s("Went hiking")),
        vec![s("travel"), s("outdoors")],
        &k,
    )
    .unwrap();
    let expected = Journal::new(
        id.clone(),
        Some(s("Trip")),
        Some(s("Went hiking")),
        vec![s("travel"), s("outdoors")],
    );
    assert_eq!(journal_from_lookup(Some(file.clone()), &k), Ok(expected.clone()));
    let listed = records_from_files(&vec![file], &k).unwrap();
    assert_eq!(select_records(listed.clone(), Some(s("travel"))), vec![expected]);
    assert_eq!(select_records(listed, Some(s("work"))), Vec::<Journal>::new());
    // Once deleted, the lookup by id finds no file.
    assert_eq!(journal_from_lookup(None, &k), Err(JournalError::NotFound));
}

#[test]
fn aes_gcm_known_answers() {
    let zero_key = [0u8; 32];
    let zero_nonce = [0u8; 12];
    let empty = seal_with_nonce(b"", &zero_key, &zero_nonce).unwrap();
    assert_eq!(empty.content, "Uw+K+8dFNrmpY7TxxMtziw==");
    let block = seal_with_nonce(&[0u8; 16], &zero_key, &zero_nonce).unwrap();
    assert_eq!(block.content, "zqdAPU1ga24HTsXTuvOdGNDRyKeZmWvwJluYtdSKuRk=");
    assert_eq!(block.nonce, "AAAAAAAAAAAAAAAA");
    assert_eq!(open(&block.content, &block.nonce, &zero_key), Ok(vec![0u8; 16]));
}

#[test]
fn quoted_text_matches_json_strings() {
    let samples = [
        "plain",
        "",
        "tab\there\nline\r\u{8}\u{c}",
        "\u{1}\u{1f}\u{7f}",
        "quote \" and backslash \\ and slash /",
        "é✓ 😀",
    ];
    for text in samples {
        let mut out = Vec::new();
        push_quoted(&mut out, text.as_bytes());
        assert_eq!(String::from_utf8(out).unwrap(), serde_json::to_string(text).unwrap());
    }
}

#[test]
fn record_with_every_escape_round_trips() {
    let j = Journal::new(
        s("id"),
        Some(s("a\u{8}b\u{c}c\nd\re\tf\u{1}g")),
        Some(s("\"\\")),
        vec![s("\n")],
    );
    assert_eq!(Journal::from_canonical(&j.to_canonical()), Some(j));
}

#[test]
fn created_id_is_a_uuid_v4() {
    let (id, _) = create_record(None, None, vec![], &key()).unwrap();
    let chars: Vec<char> = id.chars().collect();
    assert_eq!(chars.len(), 36);
    for (i, c) in chars.iter().enumerate() {
        if i == 8 || i == 13 || i == 18 || i == 23 {
            assert_eq!(*c, '-');
        } else {
            assert!(c.is_ascii_digit() || ('a'..='f').contains(c));
        }
    }
    assert_eq!(chars[14], '4');
    assert!(['8', '9', 'a', 'b'].contains(&chars[19]));
}

#[test]
fn record_text_may_leave_out_absent_fields() {
    let no_title = b"{\"id\":\"a\",\"body\":\"b\",\"tags\":[]}";
    assert_eq!(
        Journal::from_canonical(no_title),
        Some(Journal::new(s("a"), None, Some(s("b")), vec![]))
    );
    let neither = b"{\"id\":\"a\",\"tags\":[\"t\"]}";
    assert_eq!(
        Journal::from_canonical(neither),
        Some(Journal::new(s("a"), None, None, vec![s("t")]))
    );
    let no_body = b"{\"id\":\"a\",\"title\":null,\"tags\":[]}";
    assert_eq!(
        Journal::from_canonical(no_body),
        Some(Journal::new(s("a"), None, None, vec![]))
    );
    let j = Journal::new(s("a"), None, None, vec![]);
    assert_eq!(j.to_record_text(false, false), b"{\"id\":\"a\",\"tags\":[]}".to_vec());
    let sealed = seal_with_nonce(neither, &key(), &[3u8; 12]).unwrap();
    assert_eq!(
        open_journal(&sealed.to_file_bytes(), &key()),
        Ok(Journal::new(s("a"), None, None, vec![s("t")]))
    );
}
