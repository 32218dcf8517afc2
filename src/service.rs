//! The record service: creating, opening, listing, filtering and exporting
//! records. Reading and writing the storage directory is left to the caller,
//! which hands over what it found and stores what it is given.
//!
//! There is no update: a record changes only by deleting it and creating a
//! new one, which gets a new identifier.
use vstd::prelude::*;

use crate::crypto::{
    aes_gcm_seal_of, base64_of, open, random_nonce, seal_with_nonce, sealed_as,
    PLAINTEXT_MAX, TAG_LEN,
};
use crate::envelope::envelope_text;
use crate::record::{canonical, is_record_text, lemma_canonical_len, tags_size, text_size};
use vstd::utf8::*;
use crate::types::{journals_view, EncryptedFile, tags_view, text_view, Journal, JournalError, JournalView};

verus! {

/// The file extension of every envelope, for writing, reading, deleting and
/// scanning alike.
pub const ENVELOPE_EXTENSION: &'static str = "json";

/// The envelope file text that stores record `m` sealed under `key` with
/// nonce `n`.
pub open spec fn stored_text(m: JournalView, key: Seq<u8>, n: Seq<u8>) -> Seq<u8> {
    envelope_text(base64_of(aes_gcm_seal_of(key, n, canonical(m))), base64_of(n))
}

/// Whether `file` is an envelope that seals, under `key`, a text of record
/// `m` (see `is_record_text`).
pub open spec fn seals_record(file: Seq<u8>, key: Seq<u8>, m: JournalView) -> bool {
    exists|c: Seq<char>, nn: Seq<char>, n: Seq<u8>, p: Seq<u8>|
        #![trigger envelope_text(c, nn), sealed_as(c, nn, key, n, p)]
        envelope_text(c, nn) == file && sealed_as(c, nn, key, n, p) && is_record_text(p, m)
}

/// Whether `file` stores record `m` under `key`, with some nonce.
pub open spec fn stores(file: Seq<u8>, key: Seq<u8>, m: JournalView) -> bool {
    exists|n: Seq<u8>| #[trigger] stores_with(file, key, m, n)
}

/// Whether `file` stores record `m` under `key` with nonce `n`.
pub open spec fn stores_with(file: Seq<u8>, key: Seq<u8>, m: JournalView, n: Seq<u8>) -> bool {
    &&& n.len() == 12
    &&& canonical(m).len() <= PLAINTEXT_MAX
    &&& aes_gcm_seal_of(key, n, canonical(m)).len() == canonical(m).len() + TAG_LEN
    &&& stored_text(m, key, n) == file
}

/// Whether `c` is a lowercase hexadecimal digit.
pub open spec fn is_lower_hex(c: char) -> bool {
    ('0' <= c <= '9') || ('a' <= c <= 'f')
}

/// Whether `s` is the hyphenated lowercase text of a version-4 UUID:
/// 8-4-4-4-12 hexadecimal digits, version digit `4`, variant digit `8` to `b`.
pub open spec fn is_uuid_v4_text(s: Seq<char>) -> bool {
    &&& s.len() == 36
    &&& forall|i: int|
        0 <= i < 36 ==> if i == 8 || i == 13 || i == 18 || i == 23 {
            s[i] == '-'
        } else {
            is_lower_hex(#[trigger] s[i])
        }
    &&& s[14] == '4'
    &&& (s[19] == '8' || s[19] == '9' || s[19] == 'a' || s[19] == 'b')
}

/// The largest request size (texts in UTF-8 bytes, plus one for each tag)
/// that `create_record` always accepts.
pub const REQUEST_MAX: u64 = 4294967296;

/// Relies on uuid's `Uuid::new_v4`, which sets version 4 and the RFC 4122
/// variant on random bytes, and on its `Display`, the hyphenated lowercase
/// form.
#[verifier::external_body]
fn new_record_id() -> (r: String)
    ensures
        is_uuid_v4_text(r@),
{
    uuid::Uuid::new_v4().to_string()
}

/// The envelope file text of `j` sealed under `key` with `nonce`.
pub fn seal_journal_with_nonce(j: &Journal, key: &[u8; 32], nonce: &[u8; 12]) -> (r: Result<
    Vec<u8>,
    JournalError,
>)
    ensures
        r is Ok <==> canonical(j@).len() <= PLAINTEXT_MAX,
        r matches Ok(f) ==> f@ == stored_text(j@, key@, nonce@) && aes_gcm_seal_of(
            key@,
            nonce@,
            canonical(j@),
        ).len() == canonical(j@).len() + TAG_LEN,
        r matches Err(e) ==> e == JournalError::CryptoError,
{
    let text = j.to_canonical();
    match seal_with_nonce(text.as_slice(), key, nonce) {
        Ok(e) => Ok(e.to_file_bytes()),
        Err(e) => Err(e),
    }
}

/// The envelope file text of `j` sealed under `key` with a fresh nonce.
pub fn seal_journal(j: &Journal, key: &[u8; 32]) -> (r: Result<Vec<u8>, JournalError>)
    ensures
        r is Ok <==> canonical(j@).len() <= PLAINTEXT_MAX,
        r matches Ok(f) ==> stores(f@, key@, j@),
        r matches Err(e) ==> e == JournalError::CryptoError,
{
    let nonce = random_nonce();
    let r = seal_journal_with_nonce(j, key, &nonce);
    proof {
        if r is Ok {
            assert(stores_with(r->Ok_0@, key@, j@, nonce@));
        }
    }
    r
}

/// A new record with a fresh identifier, and the envelope file text that
/// stores it under `key`; the file is to be written under that identifier.
pub fn create_record(
    title: Option<String>,
    body: Option<String>,
    tags: Vec<String>,
    key: &[u8; 32],
) -> (r: Result<(String, Vec<u8>), JournalError>)
    ensures
        text_size(text_view(title)) + text_size(text_view(body)) + tags_size(tags_view(tags@))
            <= REQUEST_MAX ==> r is Ok,
        r matches Ok((id, f)) ==> is_uuid_v4_text(id@) && stores(
            f@,
            key@,
            JournalView {
                id: id@,
                title: text_view(title),
                body: text_view(body),
                tags: tags_view(tags@),
            },
        ),
        r matches Err(e) ==> e == JournalError::CryptoError && exists|id: Seq<char>|
            id.len() == 36 && #[trigger] canonical(
                JournalView {
                    id,
                    title: text_view(title),
                    body: text_view(body),
                    tags: tags_view(tags@),
                },
            ).len() > PLAINTEXT_MAX,
{
    let id = new_record_id();
    proof {
        assert(is_ascii_chars(id@)) by {
            assert forall|i: int| 0 <= i < id@.len() implies '\0' <= #[trigger] id@[i]
                <= '\u{7f}' by {
                assert(is_lower_hex(id@[i]) || id@[i] == '-');
            }
        }
        is_ascii_chars_encode_utf8(id@);
    }
    let j = Journal::new(id.clone(), title, body, tags);
    proof {
        lemma_canonical_len(j@);
    }
    match seal_journal(&j, key) {
        Ok(f) => Ok((j.id, f)),
        Err(e) => Err(e),
    }
}

/// What opening the envelope file text `file` under `key` may give: the
/// record it stores, if any; `DecodeError` where it is no envelope or the
/// plaintext is no canonical record text; `CryptoError` where the envelope
/// does not open under `key`.
#[verifier::opaque]
pub open spec fn opened_as(file: Seq<u8>, key: Seq<u8>, r: Result<Journal, JournalError>) -> bool {
    &&& (r matches Ok(j) ==> seals_record(file, key, j@))
    &&& (forall|m: JournalView| #[trigger]
            stores(file, key, m) ==> (r matches Ok(j) && j@ == m))
    &&& ((forall|c: Seq<char>, n: Seq<char>| envelope_text(c, n) != file) ==> r
            == Err::<Journal, JournalError>(JournalError::DecodeError))
    &&& ((exists|c: Seq<char>, nn: Seq<char>| #[trigger] envelope_text(c, nn) == file && forall|
            n: Seq<u8>,
            p: Seq<u8>,
        | !#[trigger] sealed_as(c, nn, key, n, p)) ==> r == Err::<Journal, JournalError>(
            JournalError::CryptoError,
        ))
    &&& ((exists|c: Seq<char>, nn: Seq<char>, n: Seq<u8>, p: Seq<u8>| #[trigger]
            envelope_text(c, nn) == file && #[trigger] sealed_as(c, nn, key, n, p) && forall|
                m: JournalView,
            | !#[trigger] is_record_text(p, m)) ==> r == Err::<Journal, JournalError>(
            JournalError::DecodeError,
        ))
    &&& (r matches Err(e) ==> e == JournalError::DecodeError || e == JournalError::CryptoError)
}

/// Opens the envelope file text `file` under `key`.
pub fn open_journal(file: &[u8], key: &[u8; 32]) -> (r: Result<Journal, JournalError>)
    ensures
        opened_as(file@, key@, r),
{
    reveal(opened_as);
    let env = match EncryptedFile::from_file_bytes(file) {
        Ok(env) => env,
        Err(e) => {
            proof {
                assert forall|m: JournalView| !#[trigger] stores(file@, key@, m) by {
                    if stores(file@, key@, m) {
                        let n = choose|n: Seq<u8>| #[trigger] stores_with(file@, key@, m, n);
                        assert(envelope_text(
                            base64_of(aes_gcm_seal_of(key@, n, canonical(m))),
                            base64_of(n),
                        ) == file@);
                    }
                }
            }
            return Err(e);
        },
    };
    proof {
        assert forall|m: JournalView, n: Seq<u8>|
            #[trigger] stores_with(file@, key@, m, n) implies sealed_as(env.content@, env.nonce@, key@, n, canonical(m)) by {
            assert(envelope_text(base64_of(aes_gcm_seal_of(key@, n, canonical(m))), base64_of(n))
                == file@);
        }
    }
    let plain = match open(env.content.as_str(), env.nonce.as_str(), key) {
        Ok(p) => p,
        Err(e) => {
            return Err(e);
        },
    };
    match Journal::from_canonical(plain.as_slice()) {
        Some(j) => {
            proof {
                let n = choose|n: Seq<u8>| #[trigger]
                    sealed_as(env.content@, env.nonce@, key@, n, plain@);
                assert(envelope_text(env.content@, env.nonce@) == file@);
                assert(sealed_as(env.content@, env.nonce@, key@, n, plain@));
                assert(seals_record(file@, key@, j@));
            }
            Ok(j)
        },
        None => Err(JournalError::DecodeError),
    }
}

/// The record stored in a file that was looked up by identifier: `NotFound`
/// where there was no such file.
pub fn journal_from_lookup(found: Option<Vec<u8>>, key: &[u8; 32]) -> (r: Result<
    Journal,
    JournalError,
>)
    ensures
        found is None ==> r == Err::<Journal, JournalError>(JournalError::NotFound),
        found matches Some(f) ==> opened_as(f@, key@, r),
{
    match found {
        Some(f) => open_journal(f.as_slice(), key),
        None => Err(JournalError::NotFound),
    }
}

/// Whether `file` seals some record text under `key`.
pub open spec fn seals_some_record(file: Seq<u8>, key: Seq<u8>) -> bool {
    exists|m: JournalView| #[trigger] seals_record(file, key, m)
}

/// Whether `file` stores some record under `key`.
pub open spec fn opens(file: Seq<u8>, key: Seq<u8>) -> bool {
    exists|m: JournalView| #[trigger] stores(file, key, m)
}

/// The records stored in the envelope files found by a scan of the storage
/// directory, in the order found; the first file that does not open ends the
/// scan with its error.
pub fn records_from_files(files: &Vec<Vec<u8>>, key: &[u8; 32]) -> (r: Result<
    Vec<Journal>,
    JournalError,
>)
    ensures
        r matches Ok(v) ==> v@.len() == files@.len() && forall|i: int|
            0 <= i < files@.len() ==> #[trigger] opened_as(
                files@[i]@,
                key@,
                Ok::<Journal, JournalError>(v@[i]),
            ),
        (forall|i: int| 0 <= i < files@.len() ==> #[trigger] opens(files@[i]@, key@)) ==> r is Ok,
        r matches Err(e) ==> exists|i: int|
            0 <= i < files@.len() && #[trigger] opened_as(
                files@[i]@,
                key@,
                Err::<Journal, JournalError>(e),
            ) && forall|k: int| 0 <= k < i ==> #[trigger] seals_some_record(files@[k]@, key@),
{
    let mut out: Vec<Journal> = Vec::new();
    let mut i: usize = 0;
    while i < files.len()
        invariant
            i <= files@.len(),
            out@.len() == i,
            forall|k: int| 0 <= k < i ==> #[trigger] opened_as(
                files@[k]@,
                key@,
                Ok::<Journal, JournalError>(out@[k]),
            ),
        decreases files@.len() - i,
    {
        match open_journal(files[i].as_slice(), key) {
            Ok(j) => {
                out.push(j);
            },
            Err(e) => {
                proof {
                    reveal(opened_as);
                    if opens(files@[i as int]@, key@) {
                        let m = choose|m: JournalView| #[trigger] stores(files@[i as int]@, key@, m);
                    }
                    assert forall|k: int| 0 <= k < i implies #[trigger] seals_some_record(
                        files@[k]@,
                        key@,
                    ) by {
                        assert(opened_as(files@[k]@, key@, Ok::<Journal, JournalError>(out@[k])));
                        assert(seals_record(files@[k]@, key@, out@[k]@));
                    }
                    assert(opened_as(files@[i as int]@, key@, Err::<Journal, JournalError>(e)));
                }
                return Err(e);
            },
        }
        i += 1;
    }
    Ok(out)
}

/// The records among `records` that carry the tag `tag` exactly, in order.
pub fn filter_by_tag(records: &Vec<Journal>, tag: &String) -> (r: Vec<Journal>)
    ensures
        journals_view(r@) == journals_view(records@).filter(|m: JournalView| m.tags.contains(tag@)),
{
    let ghost pred = |m: JournalView| m.tags.contains(tag@);
    let mut out: Vec<Journal> = Vec::new();
    let mut i: usize = 0;
    while i < records.len()
        invariant
            i <= records@.len(),
            pred == (|m: JournalView| m.tags.contains(tag@)),
            journals_view(out@) == journals_view(records@.subrange(0, i as int)).filter(pred),
        decreases records@.len() - i,
    {
        let ghost before = out@;
        if records[i].has_tag(tag) {
            out.push(records[i].duplicate());
        }
        proof {
            let done = journals_view(records@.subrange(0, i as int));
            assert(journals_view(records@.subrange(0, i + 1)) =~= done.push(records@[i as int]@));
            done.lemma_filter_push(records@[i as int]@, pred);
            if pred(records@[i as int]@) {
                assert(journals_view(out@) =~= journals_view(before).push(records@[i as int]@));
            } else {
                assert(journals_view(out@) =~= journals_view(before));
            }
        }
        i += 1;
    }
    assert(records@.subrange(0, records@.len() as int) =~= records@);
    out
}

/// What a listing returns from the records that a scan found: all of them
/// without a tag, and those that carry the tag with one.
pub fn select_records(records: Vec<Journal>, tag: Option<String>) -> (r: Vec<Journal>)
    ensures
        tag is None ==> journals_view(r@) == journals_view(records@),
        tag matches Some(t) ==> journals_view(r@) == journals_view(records@).filter(
            |m: JournalView| m.tags.contains(t@),
        ),
{
    match tag {
        Some(t) => filter_by_tag(&records, &t),
        None => records,
    }
}

/// What a check of the storage root found, as an outcome: the root must be
/// an existing directory, and the process must be able to read it.
pub fn storage_status(is_dir: bool, readable: bool) -> (r: Result<(), JournalError>)
    ensures
        !is_dir ==> r == Err::<(), JournalError>(JournalError::NotADirectory),
        is_dir && !readable ==> r == Err::<(), JournalError>(JournalError::PermissionDenied),
        is_dir && readable ==> r is Ok,
{
    if !is_dir {
        Err(JournalError::NotADirectory)
    } else if !readable {
        Err(JournalError::PermissionDenied)
    } else {
        Ok(())
    }
}

/// Round trip: the file that sealing a record under a key with a nonce
/// gives (`seal_journal_with_nonce` makes exactly `stored_text`, with the
/// ciphertext the plaintext's length plus the tag) stores that record under
/// that key, and `open_journal` gives back exactly the record a file stores.
pub proof fn lemma_round_trip(m: JournalView, key: Seq<u8>, n: Seq<u8>)
    requires
        key.len() == 32,
        n.len() == 12,
        canonical(m).len() <= PLAINTEXT_MAX,
        aes_gcm_seal_of(key, n, canonical(m)).len() == canonical(m).len() + TAG_LEN,
    ensures
        stores_with(stored_text(m, key, n), key, m, n),
        stores(stored_text(m, key, n), key, m),
        opens(stored_text(m, key, n), key),
{
    assert(stores_with(stored_text(m, key, n), key, m, n));
}

} // verus!
