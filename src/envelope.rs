//! The envelope file: the JSON object `{"content":..,"nonce":..}` with no
//! blank space, holding the two base64 texts of a sealed record.
use vstd::prelude::*;

use crate::codec::{expect_literal, literal_at, push_all};
use crate::record::{lemma_split_rest, parse_text, push_text, text_field};
use crate::text::same_bytes;
use crate::types::{EncryptedFile, JournalError};

verus! {

/// `{"content":`
pub open spec fn content_key() -> Seq<u8> {
    seq![123u8, 34, 99, 111, 110, 116, 101, 110, 116, 34, 58]
}

/// `,"nonce":`
pub open spec fn nonce_key() -> Seq<u8> {
    seq![44u8, 34, 110, 111, 110, 99, 101, 34, 58]
}

/// `}`
pub open spec fn envelope_close() -> Seq<u8> {
    seq![125u8]
}

/// The envelope text from the nonce value to the end; the functions below
/// give it from each earlier field key or value on.
pub open spec fn rest_nonce(n: Seq<char>) -> Seq<u8> {
    text_field(n) + envelope_close()
}

pub open spec fn rest_nonce_key(n: Seq<char>) -> Seq<u8> {
    nonce_key() + rest_nonce(n)
}

pub open spec fn rest_content(c: Seq<char>, n: Seq<char>) -> Seq<u8> {
    text_field(c) + rest_nonce_key(n)
}

/// The file text of an envelope with the given content and nonce texts.
pub open spec fn envelope_text(content: Seq<char>, nonce: Seq<char>) -> Seq<u8> {
    content_key() + rest_content(content, nonce)
}

impl EncryptedFile {
    pub fn new(content: String, nonce: String) -> (r: EncryptedFile)
        ensures
            r.content@ == content@,
            r.nonce@ == nonce@,
    {
        EncryptedFile { content, nonce }
    }

    /// The file text of this envelope.
    pub fn to_file_bytes(&self) -> (r: Vec<u8>)
        ensures
            r@ == envelope_text(self.content@, self.nonce@),
    {
        let ghost c = self.content@;
        let ghost n = self.nonce@;
        let mut out: Vec<u8> = Vec::new();
        let content_lit: [u8; 11] = [123, 34, 99, 111, 110, 116, 101, 110, 116, 34, 58];
        assert(content_lit@ =~= content_key());
        push_all(&mut out, &content_lit);
        push_text(&mut out, &self.content);
        assert(out@ + rest_nonce_key(n) =~= envelope_text(c, n));
        let nonce_lit: [u8; 9] = [44, 34, 110, 111, 110, 99, 101, 34, 58];
        assert(nonce_lit@ =~= nonce_key());
        push_all(&mut out, &nonce_lit);
        assert(out@ + rest_nonce(n) =~= envelope_text(c, n));
        push_text(&mut out, &self.nonce);
        assert(out@ + envelope_close() =~= envelope_text(c, n));
        let close_lit: [u8; 1] = [125];
        assert(close_lit@ =~= envelope_close());
        push_all(&mut out, &close_lit);
        out
    }

    /// Reads an envelope from its file text: `DecodeError` exactly when `s`
    /// is the text of no envelope.
    pub fn from_file_bytes(s: &[u8]) -> (r: Result<EncryptedFile, JournalError>)
        ensures
            match r {
                Ok(e) => envelope_text(e.content@, e.nonce@) == s@,
                Err(err) => err == JournalError::DecodeError && forall|c: Seq<char>, n: Seq<char>|
                    envelope_text(c, n) != s@,
            },
            forall|c: Seq<char>, n: Seq<char>| #[trigger]
                envelope_text(c, n) == s@ ==> (r matches Ok(e) && e.content@ == c && e.nonce@
                    == n),
    {
        match parse_envelope(s) {
            Some(e) => {
                let enc = e.to_file_bytes();
                if same_bytes(enc.as_slice(), s) {
                    Ok(e)
                } else {
                    Err(JournalError::DecodeError)
                }
            },
            None => Err(JournalError::DecodeError),
        }
    }
}

/// Reads an envelope file text, field by field.
fn parse_envelope(s: &[u8]) -> (r: Option<EncryptedFile>)
    ensures
        forall|c: Seq<char>, n: Seq<char>| #[trigger]
            envelope_text(c, n) == s@ ==> (r matches Some(e) && e.content@ == c && e.nonce@ == n),
{
    let content_lit: [u8; 11] = [123, 34, 99, 111, 110, 116, 101, 110, 116, 34, 58];
    assert(content_lit@ =~= content_key());
    proof {
        assert forall|c: Seq<char>, n: Seq<char>| #[trigger]
            envelope_text(c, n) == s@ implies literal_at(s@, 0, content_key()) && s@.subrange(
            11,
            s@.len() as int,
        ) == rest_content(c, n) by {
            assert(s@.subrange(0, s@.len() as int) =~= s@);
            lemma_split_rest(s@, 0, content_key(), rest_content(c, n));
        }
    }
    let p = match expect_literal(s, 0, &content_lit) {
        Some(p) => p,
        None => return None,
    };
    let (content, p) = match parse_text(s, p) {
        Some(x) => x,
        None => return None,
    };
    let nonce_lit: [u8; 9] = [44, 34, 110, 111, 110, 99, 101, 34, 58];
    assert(nonce_lit@ =~= nonce_key());
    proof {
        assert forall|c: Seq<char>, n: Seq<char>| #[trigger]
            envelope_text(c, n) == s@ implies literal_at(s@, p as int, nonce_key())
            && s@.subrange(p + 9, s@.len() as int) == rest_nonce(n) by {
            lemma_split_rest(s@, p as int, nonce_key(), rest_nonce(n));
        }
    }
    let p = match expect_literal(s, p, &nonce_lit) {
        Some(p) => p,
        None => return None,
    };
    let (nonce, _p) = match parse_text(s, p) {
        Some(x) => x,
        None => return None,
    };
    Some(EncryptedFile { content, nonce })
}

} // verus!
