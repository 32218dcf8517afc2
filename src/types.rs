//! The record model, the envelope, the request shape and the error taxonomy.
use vstd::prelude::*;

verus! {

/// What can go wrong in the storage engine.
#[derive(Debug, Clone, Copy, PartialEq, Eq, Structural)]
pub enum JournalError {
    /// The record or file does not exist.
    NotFound,
    /// The storage root is not a directory.
    NotADirectory,
    /// The storage root cannot be written.
    PermissionDenied,
    /// An envelope or a canonical record text is malformed.
    DecodeError,
    /// Wrong key length, failed authentication, or a plaintext that is not text.
    CryptoError,
    /// Any other filesystem failure.
    IOError,
}

/// Where the envelopes live and the secret they are sealed with.
#[derive(Debug, Clone, Default)]
pub struct Config {
    pub storage: String,
    pub secret: String,
}

impl Config {
    pub fn new(storage: String, secret: String) -> (r: Config)
        ensures
            r.storage@ == storage@,
            r.secret@ == secret@,
    {
        Config { storage, secret }
    }
}

/// The fields a caller supplies to create a record.
#[derive(Debug, Clone, PartialEq, Eq, Default)]
pub struct CreateUpdateRequest {
    pub title: Option<String>,
    pub body: Option<String>,
    pub tags: Vec<String>,
}

/// The sealed form of one record: base64 ciphertext with its tag, and the
/// base64 nonce.
#[derive(Debug, Clone, PartialEq, Eq, Default)]
pub struct EncryptedFile {
    pub content: String,
    pub nonce: String,
}

/// A journal entry.
#[derive(Debug, Clone, PartialEq, Eq, Default)]
pub struct Journal {
    pub id: String,
    pub title: Option<String>,
    pub body: Option<String>,
    pub tags: Vec<String>,
}

/// The mathematical value of a journal entry.
pub struct JournalView {
    pub id: Seq<char>,
    pub title: Option<Seq<char>>,
    pub body: Option<Seq<char>>,
    pub tags: Seq<Seq<char>>,
}

pub open spec fn text_view(o: Option<String>) -> Option<Seq<char>> {
    match o {
        Some(s) => Some(s@),
        None => None,
    }
}

pub open spec fn tags_view(tags: Seq<String>) -> Seq<Seq<char>> {
    tags.map_values(|t: String| t@)
}

impl View for Journal {
    type V = JournalView;

    open spec fn view(&self) -> JournalView {
        JournalView {
            id: self.id@,
            title: text_view(self.title),
            body: text_view(self.body),
            tags: tags_view(self.tags@),
        }
    }
}

/// A copy of an optional text.
pub fn copy_text(o: &Option<String>) -> (r: Option<String>)
    ensures
        text_view(r) == text_view(*o),
{
    match o {
        Some(t) => Some(t.clone()),
        None => None,
    }
}

/// A copy of a list of texts.
pub fn copy_tags(tags: &Vec<String>) -> (r: Vec<String>)
    ensures
        r@ == tags@,
{
    let mut out: Vec<String> = Vec::new();
    let mut i: usize = 0;
    while i < tags.len()
        invariant
            i <= tags@.len(),
            out@ == tags@.subrange(0, i as int),
        decreases tags@.len() - i,
    {
        out.push(tags[i].clone());
        assert(out@ =~= tags@.subrange(0, i + 1));
        i += 1;
    }
    assert(out@ =~= tags@);
    out
}

/// The views of a sequence of records.
pub open spec fn journals_view(s: Seq<Journal>) -> Seq<JournalView> {
    s.map_values(|j: Journal| j@)
}

impl Journal {
    /// A copy of this record.
    pub fn duplicate(&self) -> (r: Journal)
        ensures
            r@ == self@,
    {
        Journal {
            id: self.id.clone(),
            title: copy_text(&self.title),
            body: copy_text(&self.body),
            tags: copy_tags(&self.tags),
        }
    }

    /// Whether one of this record's tags is exactly `tag`.
    pub fn has_tag(&self, tag: &String) -> (r: bool)
        ensures
            r == self@.tags.contains(tag@),
    {
        let mut i: usize = 0;
        while i < self.tags.len()
            invariant
                i <= self.tags@.len(),
                forall|k: int| 0 <= k < i ==> self.tags@[k]@ != tag@,
            decreases self.tags@.len() - i,
        {
            if self.tags[i] == *tag {
                assert(self@.tags[i as int] == tag@);
                return true;
            }
            i += 1;
        }
        proof {
            if self@.tags.contains(tag@) {
                let k = choose|k: int| 0 <= k < self@.tags.len() && self@.tags[k] == tag@;
                assert(self.tags@[k]@ == tag@);
            }
        }
        false
    }

    pub fn new(id: String, title: Option<String>, body: Option<String>, tags: Vec<String>) -> (r:
        Journal)
        ensures
            r@ == (JournalView {
                id: id@,
                title: text_view(title),
                body: text_view(body),
                tags: tags_view(tags@),
            }),
    {
        Journal { id, title, body, tags }
    }
}

} // verus!
