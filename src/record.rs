//! The canonical text form of a record: the JSON object
//! `{"id":..,"title":..,"body":..,"tags":[..]}` with no blank space, fields in
//! that order, absent fields written `null`.
use vstd::prelude::*;

use crate::codec::{
    expect_literal, lemma_quoted_at, literal_at, parse_quoted, push_all, push_quoted, quoted,
    quoted_at, lemma_escape_len, QUOTE,
};
use crate::types::{tags_view, text_view, Journal, JournalView};
use crate::text::{text_from_utf8, same_bytes};
use vstd::utf8::*;

verus! {

/// `{"id":`
pub open spec fn id_key() -> Seq<u8> {
    seq![123u8, 34, 105, 100, 34, 58]
}

/// `,"title":`
pub open spec fn title_key() -> Seq<u8> {
    seq![44u8, 34, 116, 105, 116, 108, 101, 34, 58]
}

/// `,"body":`
pub open spec fn body_key() -> Seq<u8> {
    seq![44u8, 34, 98, 111, 100, 121, 34, 58]
}

/// `,"tags":[`
pub open spec fn tags_key() -> Seq<u8> {
    seq![44u8, 34, 116, 97, 103, 115, 34, 58, 91]
}

/// `]}`
pub open spec fn closing() -> Seq<u8> {
    seq![93u8, 125]
}

/// `null`
pub open spec fn null_literal() -> Seq<u8> {
    seq![110u8, 117, 108, 108]
}

/// `,`
pub open spec fn comma() -> Seq<u8> {
    seq![44u8]
}

/// A text value: its UTF-8 bytes, quoted.
pub open spec fn text_field(s: Seq<char>) -> Seq<u8> {
    quoted(encode_utf8(s))
}

pub open spec fn optional_field(o: Option<Seq<char>>) -> Seq<u8> {
    match o {
        Some(s) => text_field(s),
        None => null_literal(),
    }
}

/// Each tag after the first, preceded by a comma.
pub open spec fn more_tags(tags: Seq<Seq<char>>) -> Seq<u8>
    decreases tags.len(),
{
    if tags.len() == 0 {
        seq![]
    } else {
        comma() + (text_field(tags[0]) + more_tags(tags.drop_first()))
    }
}

/// The tags separated by commas.
pub open spec fn tag_list(tags: Seq<Seq<char>>) -> Seq<u8> {
    if tags.len() == 0 {
        seq![]
    } else {
        text_field(tags[0]) + more_tags(tags.drop_first())
    }
}

/// The canonical text of a record.
pub open spec fn canonical(j: JournalView) -> Seq<u8> {
    id_key() + (text_field(j.id) + (title_key() + (optional_field(j.title) + (body_key() + (
    optional_field(j.body) + (tags_key() + (tag_list(j.tags) + closing())))))))
}

/// An optional field with its key, or nothing where it is left out.
pub open spec fn field_part(key: Seq<u8>, o: Option<Seq<char>>, shown: bool) -> Seq<u8> {
    if shown {
        key + optional_field(o)
    } else {
        seq![]
    }
}

/// A record text from the title field on, with the title and the body field
/// each shown or left out.
pub open spec fn rest_after_id(m: JournalView, show_title: bool, show_body: bool) -> Seq<u8> {
    field_part(title_key(), m.title, show_title) + (field_part(body_key(), m.body, show_body)
        + rest_tags_key(m))
}

/// The text of a record in the canonical layout, with the title and the body
/// field each shown or left out.
pub open spec fn record_text(m: JournalView, show_title: bool, show_body: bool) -> Seq<u8> {
    id_key() + (text_field(m.id) + rest_after_id(m, show_title, show_body))
}

/// Whether `s` is a text of record `m`: the canonical text, or that text with
/// an absent title or body field left out.
pub open spec fn is_record_text(s: Seq<u8>, m: JournalView) -> bool {
    exists|show_title: bool, show_body: bool|
        (show_title || m.title is None) && (show_body || m.body is None) && #[trigger] record_text(
            m,
            show_title,
            show_body,
        ) == s
}

/// The canonical text is the record text with every field shown.
pub proof fn lemma_canonical_is_record_text(m: JournalView)
    ensures
        record_text(m, true, true) == canonical(m),
        is_record_text(canonical(m), m),
{
    assert(record_text(m, true, true) =~= canonical(m));
    assert(record_text(m, true, true) == canonical(m));
}

pub open spec fn starts_with(a: Seq<u8>, b: Seq<u8>) -> bool {
    b.len() <= a.len() && a.subrange(0, b.len() as int) == b
}

/// The UTF-8 length of an optional text, zero when absent.
pub open spec fn text_size(o: Option<Seq<char>>) -> nat {
    match o {
        Some(t) => encode_utf8(t).len(),
        None => 0,
    }
}

/// The UTF-8 lengths of the tags, plus one for each tag.
pub open spec fn tags_size(tags: Seq<Seq<char>>) -> nat
    decreases tags.len(),
{
    if tags.len() == 0 {
        0
    } else {
        encode_utf8(tags[0]).len() + 1 + tags_size(tags.drop_first())
    }
}

/// The UTF-8 length of a record's texts, plus one for each tag.
pub open spec fn record_size(m: JournalView) -> nat {
    encode_utf8(m.id).len() + text_size(m.title) + text_size(m.body) + tags_size(m.tags)
}

proof fn lemma_text_field_len(t: Seq<char>)
    ensures
        text_field(t).len() <= 2 + 6 * encode_utf8(t).len(),
{
    lemma_escape_len(encode_utf8(t));
}

proof fn lemma_more_tags_len(tags: Seq<Seq<char>>)
    ensures
        more_tags(tags).len() <= 6 * tags_size(tags),
    decreases tags.len(),
{
    if tags.len() > 0 {
        lemma_text_field_len(tags[0]);
        lemma_more_tags_len(tags.drop_first());
    }
}

/// The canonical text of a record is at most 44 bytes plus six times its
/// size.
pub proof fn lemma_canonical_len(m: JournalView)
    ensures
        canonical(m).len() <= 44 + 6 * record_size(m),
{
    lemma_text_field_len(m.id);
    match m.title {
        Some(t) => lemma_text_field_len(t),
        None => {},
    }
    match m.body {
        Some(b) => lemma_text_field_len(b),
        None => {},
    }
    if m.tags.len() > 0 {
        lemma_text_field_len(m.tags[0]);
        lemma_more_tags_len(m.tags.drop_first());
    }
}

proof fn lemma_more_tags_push(tags: Seq<Seq<char>>, t: Seq<char>)
    ensures
        more_tags(tags.push(t)) == more_tags(tags) + (comma() + text_field(t)),
    decreases tags.len(),
{
    if tags.len() == 0 {
        assert(tags.push(t).drop_first() =~= Seq::<Seq<char>>::empty());
        assert(more_tags(Seq::<Seq<char>>::empty()) == Seq::<u8>::empty());
        assert(more_tags(tags.push(t)) =~= more_tags(tags) + (comma() + text_field(t)));
    } else {
        assert(tags.push(t).drop_first() =~= tags.drop_first().push(t));
        lemma_more_tags_push(tags.drop_first(), t);
        assert(more_tags(tags.push(t)) =~= more_tags(tags) + (comma() + text_field(t)));
    }
}

/// Where `a` followed by `b` stands in `s` from `pos` to the end, `a` stands
/// at `pos` and `b` fills the rest after it.
pub(crate) proof fn lemma_split_rest(s: Seq<u8>, pos: int, a: Seq<u8>, b: Seq<u8>)
    requires
        0 <= pos <= s.len(),
        s.subrange(pos, s.len() as int) == a + b,
    ensures
        literal_at(s, pos, a),
        s.subrange(pos + a.len(), s.len() as int) == b,
{
    let t = s.subrange(pos, s.len() as int);
    assert(t.len() == (a + b).len());
    assert forall|k: int| 0 <= k < a.len() implies #[trigger] s.subrange(pos, pos + a.len())[k]
        == a[k] by {
        assert(t[k] == s[pos + k]);
        assert((a + b)[k] == a[k]);
    }
    assert(s.subrange(pos, pos + a.len()) =~= a);
    assert((a + b).subrange(a.len() as int, (a + b).len() as int) =~= b);
    assert(s.subrange(pos + a.len(), s.len() as int) =~= (a + b).subrange(
        a.len() as int,
        (a + b).len() as int,
    ));
}

/// A text field at the front of what is left reads back as its text.
proof fn lemma_text_field_at(s: Seq<u8>, pos: int, t: Seq<char>, rest: Seq<u8>)
    requires
        0 <= pos <= s.len(),
        s.subrange(pos, s.len() as int) == text_field(t) + rest,
    ensures
        quoted_at(s, pos) == Some((encode_utf8(t), pos + text_field(t).len())),
        s.subrange(pos + text_field(t).len(), s.len() as int) == rest,
{
    lemma_split_rest(s, pos, text_field(t), rest);
    lemma_quoted_at(s, pos, encode_utf8(t));
}

/// Appends a text value.
pub(crate) fn push_text(out: &mut Vec<u8>, t: &String)
    ensures
        final(out)@ == old(out)@ + text_field(t@),
{
    push_quoted(out, t.as_str().as_bytes());
}

fn push_optional(out: &mut Vec<u8>, o: &Option<String>)
    ensures
        final(out)@ == old(out)@ + optional_field(text_view(*o)),
{
    match o {
        Some(t) => push_text(out, t),
        None => {
            let lit: [u8; 4] = [110, 117, 108, 108];
            assert(lit@ =~= null_literal());
            push_all(out, &lit);
        },
    }
}

/// Appends the tags separated by commas.
fn push_tag_list(out: &mut Vec<u8>, tags: &Vec<String>)
    ensures
        final(out)@ == old(out)@ + tag_list(tags_view(tags@)),
{
    let ghost before_tags = out@;
    let ghost tv = tags_view(tags@);
    let mut k: usize = 0;
    while k < tags.len()
        invariant
            k <= tags@.len(),
            tv == tags_view(tags@),
            out@ == before_tags + tag_list(tv.subrange(0, k as int)),
        decreases tags@.len() - k,
    {
        if k > 0 {
            let c: [u8; 1] = [44];
            assert(c@ =~= comma());
            push_all(out, &c);
        }
        push_text(out, &tags[k]);
        proof {
            let done = tv.subrange(0, k as int);
            let next = tv.subrange(0, k + 1);
            assert(next =~= done.push(tv[k as int]));
            if k == 0 {
                assert(next.drop_first() =~= Seq::<Seq<char>>::empty());
                assert(out@ =~= before_tags + tag_list(next));
            } else {
                assert(next.drop_first() =~= done.drop_first().push(tv[k as int]));
                lemma_more_tags_push(done.drop_first(), tv[k as int]);
                assert(out@ =~= before_tags + tag_list(next));
            }
        }
        k += 1;
    }
    assert(tv.subrange(0, tags@.len() as int) =~= tv);
}

impl Journal {
    /// The canonical text of this record.
    pub fn to_canonical(&self) -> (r: Vec<u8>)
        ensures
            r@ == canonical(self@),
    {
        proof {
            lemma_canonical_is_record_text(self@);
        }
        self.to_record_text(true, true)
    }

    /// The text of this record in the canonical layout, with the title and
    /// the body field each shown or left out.
    pub fn to_record_text(&self, show_title: bool, show_body: bool) -> (r: Vec<u8>)
        ensures
            r@ == record_text(self@, show_title, show_body),
    {
        let ghost m = self@;
        let ghost whole = record_text(m, show_title, show_body);
        let mut out: Vec<u8> = Vec::new();
        let id_lit: [u8; 6] = [123, 34, 105, 100, 34, 58];
        assert(id_lit@ =~= id_key());
        push_all(&mut out, &id_lit);
        assert(out@ + (text_field(m.id) + rest_after_id(m, show_title, show_body)) =~= whole);
        push_text(&mut out, &self.id);
        assert(out@ + rest_after_id(m, show_title, show_body) =~= whole);
        if show_title {
            let title_lit: [u8; 9] = [44, 34, 116, 105, 116, 108, 101, 34, 58];
            assert(title_lit@ =~= title_key());
            push_all(&mut out, &title_lit);
            push_optional(&mut out, &self.title);
        }
        assert(out@ + (field_part(body_key(), m.body, show_body) + rest_tags_key(m)) =~= whole);
        if show_body {
            let body_lit: [u8; 8] = [44, 34, 98, 111, 100, 121, 34, 58];
            assert(body_lit@ =~= body_key());
            push_all(&mut out, &body_lit);
            push_optional(&mut out, &self.body);
        }
        assert(out@ + rest_tags_key(m) =~= whole);
        let tags_lit: [u8; 9] = [44, 34, 116, 97, 103, 115, 34, 58, 91];
        assert(tags_lit@ =~= tags_key());
        push_all(&mut out, &tags_lit);
        assert(out@ + rest_tag_list(m) =~= whole);
        push_tag_list(&mut out, &self.tags);
        assert(out@ + closing() =~= whole);
        let close_lit: [u8; 2] = [93, 125];
        assert(close_lit@ =~= closing());
        push_all(&mut out, &close_lit);
        out
    }
}

/// Reads a text value at `pos`.
pub(crate) fn parse_text(s: &[u8], pos: usize) -> (r: Option<(String, usize)>)
    requires
        pos <= s@.len(),
    ensures
        forall|t: Seq<char>, rest: Seq<u8>|
            #![trigger text_field(t) + rest]
            s@.subrange(pos as int, s@.len() as int) == text_field(t) + rest ==> (r matches Some((v, e))
                && v@ == t && s@.subrange(e as int, s@.len() as int) == rest),
        r matches Some((v, e)) ==> pos < e <= s@.len(),
{
    broadcast use {encode_utf8_valid_utf8, encode_utf8_decode_utf8};

    match parse_quoted(s, pos) {
        None => {
            proof {
                assert forall|t: Seq<char>, rest: Seq<u8>|
                    s@.subrange(pos as int, s@.len() as int) == #[trigger] (text_field(t)
                        + rest) implies false by {
                    lemma_text_field_at(s@, pos as int, t, rest);
                }
            }
            None
        },
        Some((bytes, e)) => {
            let ghost b = bytes@;
            proof {
                assert forall|t: Seq<char>, rest: Seq<u8>|
                    s@.subrange(pos as int, s@.len() as int) == #[trigger] (text_field(t)
                        + rest) implies b == encode_utf8(t) && s@.subrange(
                    e as int,
                    s@.len() as int,
                ) == rest by {
                    lemma_text_field_at(s@, pos as int, t, rest);
                }
            }
            match text_from_utf8(bytes) {
                Some(v) => Some((v, e)),
                None => None,
            }
        },
    }
}

/// Reads an optional text value at `pos`: `null` or a text.
fn parse_optional(s: &[u8], pos: usize) -> (r: Option<(Option<String>, usize)>)
    requires
        pos <= s@.len(),
    ensures
        forall|o: Option<Seq<char>>, rest: Seq<u8>|
            #![trigger optional_field(o) + rest]
            s@.subrange(pos as int, s@.len() as int) == optional_field(o) + rest ==> (r matches Some((v, e))
                && text_view(v) == o && s@.subrange(e as int, s@.len() as int) == rest),
        r matches Some((v, e)) ==> pos < e <= s@.len(),
{
    let lit: [u8; 4] = [110, 117, 108, 108];
    assert(lit@ =~= null_literal());
    match expect_literal(s, pos, &lit) {
        Some(e) => {
            proof {
                assert forall|o: Option<Seq<char>>, rest: Seq<u8>|
                    s@.subrange(pos as int, s@.len() as int) == #[trigger] (optional_field(o)
                        + rest) implies o is None && s@.subrange(e as int, s@.len() as int)
                    == rest by {
                    lemma_split_rest(s@, pos as int, optional_field(o), rest);
                    if o is Some {
                        assert(s@[pos as int] == s@.subrange(pos as int, pos + 4)[0]);
                        assert(s@[pos as int] == s@.subrange(
                            pos as int,
                            pos + optional_field(o).len(),
                        )[0]);
                        assert(false);
                    }
                }
            }
            Some((None, e))
        },
        None => {
            let parsed = parse_text(s, pos);
            proof {
                assert forall|o: Option<Seq<char>>, rest: Seq<u8>|
                    s@.subrange(pos as int, s@.len() as int) == #[trigger] (optional_field(o)
                        + rest) implies o is Some && (parsed matches Some((v, e)) && v@ == o->0
                    && s@.subrange(e as int, s@.len() as int) == rest) by {
                    lemma_split_rest(s@, pos as int, optional_field(o), rest);
                    if o is None {
                        assert(false);
                    } else {
                        assert(text_field(o->0) + rest == optional_field(o) + rest);
                    }
                }
            }
            match parsed {
                Some((v, e)) => Some((Some(v), e)),
                None => None,
            }
        },
    }
}

proof fn lemma_more_tags_front(tags: Seq<Seq<char>>, k: int)
    requires
        0 <= k < tags.len(),
    ensures
        more_tags(tags.subrange(k, tags.len() as int)) == comma() + (text_field(tags[k])
            + more_tags(tags.subrange(k + 1, tags.len() as int))),
{
    let tail = tags.subrange(k, tags.len() as int);
    assert(tail.drop_first() =~= tags.subrange(k + 1, tags.len() as int));
    assert(tail[0] == tags[k]);
}

/// Whether the tag list `tags` followed by `rest` fills `s` from `pos` on,
/// with `rest` starting with neither a quote nor a comma.
pub open spec fn tags_then(s: Seq<u8>, pos: int, tags: Seq<Seq<char>>, rest: Seq<u8>) -> bool {
    &&& s.subrange(pos, s.len() as int) == tag_list(tags) + rest
    &&& rest.len() > 0
    &&& rest[0] != QUOTE
    &&& rest[0] != 44
}

/// Reads the tags separated by commas at `pos`.
fn parse_tags(s: &[u8], pos: usize) -> (r: Option<(Vec<String>, usize)>)
    requires
        pos <= s@.len(),
    ensures
        forall|tags: Seq<Seq<char>>, rest: Seq<u8>|
            #![trigger tags_then(s@, pos as int, tags, rest)]
            tags_then(s@, pos as int, tags, rest) ==> (r matches Some((v, e)) && tags_view(v@)
                == tags && s@.subrange(e as int, s@.len() as int) == rest),
        r matches Some((v, e)) ==> pos <= e <= s@.len(),
{
    let mut out: Vec<String> = Vec::new();
    if pos >= s.len() || s[pos] != QUOTE {
        proof {
            assert forall|tags: Seq<Seq<char>>, rest: Seq<u8>|
                #[trigger] tags_then(s@, pos as int, tags, rest) implies tags_view(out@) == tags
                && s@.subrange(pos as int, s@.len() as int) == rest by {
                if tags.len() > 0 {
                    let r2 = more_tags(tags.drop_first()) + rest;
                    assert(tag_list(tags) + rest =~= text_field(tags[0]) + r2);
                    lemma_split_rest(s@, pos as int, text_field(tags[0]), r2);
                    assert(s@[pos as int] == s@.subrange(
                        pos as int,
                        pos + text_field(tags[0]).len(),
                    )[0]);
                } else {
                    assert(tag_list(tags) + rest =~= rest);
                    assert(tags_view(out@) =~= tags);
                }
            }
        }
        return Some((out, pos));
    }
    let mut p: usize = match parse_text(s, pos) {
        Some((v, e)) => {
            proof {
                assert forall|tags: Seq<Seq<char>>, rest: Seq<u8>|
                    #[trigger] tags_then(s@, pos as int, tags, rest) implies tags.len() > 0
                    && v@ == tags[0] && s@.subrange(e as int, s@.len() as int) == more_tags(
                    tags.drop_first(),
                ) + rest by {
                    if tags.len() == 0 {
                        assert(tag_list(tags) + rest =~= rest);
                        assert(s@[pos as int] == s@.subrange(pos as int, s@.len() as int)[0]);
                    } else {
                        let r2 = more_tags(tags.drop_first()) + rest;
                        assert(tag_list(tags) + rest =~= text_field(tags[0]) + r2);
                    }
                }
            }
            out.push(v);
            proof {
                assert forall|tags: Seq<Seq<char>>, rest: Seq<u8>|
                    #[trigger] tags_then(s@, pos as int, tags, rest) implies tags_view(out@)
                    == tags.subrange(0, 1) && tags.drop_first() == tags.subrange(
                    1,
                    tags.len() as int,
                ) by {
                    assert(tags_view(out@) =~= tags.subrange(0, 1));
                    assert(tags.drop_first() =~= tags.subrange(1, tags.len() as int));
                }
            }
            e
        },
        None => {
            proof {
                assert forall|tags: Seq<Seq<char>>, rest: Seq<u8>|
                    #[trigger] tags_then(s@, pos as int, tags, rest) implies false by {
                    if tags.len() == 0 {
                        assert(tag_list(tags) + rest =~= rest);
                        assert(s@[pos as int] == s@.subrange(pos as int, s@.len() as int)[0]);
                    } else {
                        let r2 = more_tags(tags.drop_first()) + rest;
                        assert(tag_list(tags) + rest =~= text_field(tags[0]) + r2);
                    }
                }
            }
            return None;
        },
    };
    while p < s.len() && s[p] == 44
        invariant
            pos < p <= s@.len(),
            forall|tags: Seq<Seq<char>>, rest: Seq<u8>|
                #![trigger tags_then(s@, pos as int, tags, rest)]
                tags_then(s@, pos as int, tags, rest) ==> {
                    &&& 1 <= out@.len() <= tags.len()
                    &&& tags_view(out@) == tags.subrange(0, out@.len() as int)
                    &&& s@.subrange(p as int, s@.len() as int) == more_tags(
                        tags.subrange(out@.len() as int, tags.len() as int),
                    ) + rest
                },
        decreases s@.len() - p,
    {
        let q = p + 1;
        let ghost k = out@.len() as int;
        let ghost old_out = out@;
        proof {
            assert forall|tags: Seq<Seq<char>>, rest: Seq<u8>|
                #[trigger] tags_then(s@, pos as int, tags, rest) implies k < tags.len() && s@.subrange(
                q as int,
                s@.len() as int,
            ) == text_field(tags[k]) + (more_tags(tags.subrange(k + 1, tags.len() as int))
                + rest) by {
                if k == tags.len() {
                    assert(tags.subrange(k, tags.len() as int) =~= Seq::<Seq<char>>::empty());
                    assert(more_tags(Seq::<Seq<char>>::empty()) + rest =~= rest);
                    assert(s@[p as int] == s@.subrange(p as int, s@.len() as int)[0]);
                } else {
                    lemma_more_tags_front(tags, k);
                    let m = more_tags(tags.subrange(k + 1, tags.len() as int));
                    assert(more_tags(tags.subrange(k, tags.len() as int)) + rest =~= comma() + (
                    text_field(tags[k]) + (m + rest)));
                    lemma_split_rest(s@, p as int, comma(), text_field(tags[k]) + (m + rest));
                }
            }
        }
        match parse_text(s, q) {
            Some((v, e)) => {
                out.push(v);
                p = e;
                proof {
                    assert forall|tags: Seq<Seq<char>>, rest: Seq<u8>|
                        #[trigger] tags_then(s@, pos as int, tags, rest) implies tags_view(out@)
                        == tags.subrange(0, out@.len() as int) by {
                        assert(tags_view(out@) =~= tags_view(old_out).push(v@));
                        assert(tags.subrange(0, k + 1) =~= tags.subrange(0, k).push(tags[k]));
                    }
                }
            },
            None => {
                return None;
            },
        }
    }
    proof {
        assert forall|tags: Seq<Seq<char>>, rest: Seq<u8>|
            #[trigger] tags_then(s@, pos as int, tags, rest) implies tags_view(out@) == tags
            && s@.subrange(p as int, s@.len() as int) == rest by {
            let k = out@.len() as int;
            if k < tags.len() {
                lemma_more_tags_front(tags, k);
                assert(s@[p as int] == s@.subrange(p as int, s@.len() as int)[0]);
            } else {
                assert(tags.subrange(k, tags.len() as int) =~= Seq::<Seq<char>>::empty());
                assert(more_tags(Seq::<Seq<char>>::empty()) + rest =~= rest);
                assert(tags.subrange(0, k) =~= tags);
            }
        }
    }
    Some((out, p))
}

/// The canonical text of `m` from its tag list to the end; the functions
/// below give it from each earlier field key or value on.
pub open spec fn rest_tag_list(m: JournalView) -> Seq<u8> {
    tag_list(m.tags) + closing()
}

pub open spec fn rest_tags_key(m: JournalView) -> Seq<u8> {
    tags_key() + rest_tag_list(m)
}

pub open spec fn rest_body(m: JournalView) -> Seq<u8> {
    optional_field(m.body) + rest_tags_key(m)
}

pub open spec fn rest_body_key(m: JournalView) -> Seq<u8> {
    body_key() + rest_body(m)
}

pub open spec fn rest_title(m: JournalView) -> Seq<u8> {
    optional_field(m.title) + rest_body_key(m)
}

pub open spec fn rest_title_key(m: JournalView) -> Seq<u8> {
    title_key() + rest_title(m)
}

pub open spec fn rest_id(m: JournalView) -> Seq<u8> {
    text_field(m.id) + rest_title_key(m)
}

/// Reads an optional field with key `key` at `pos`, or finds it left out.
fn parse_field(s: &[u8], pos: usize, key: &[u8]) -> (r: Option<(Option<String>, bool, usize)>)
    requires
        pos <= s@.len(),
    ensures
        forall|o: Option<Seq<char>>, shown: bool, rest: Seq<u8>|
            #![trigger field_part(key@, o, shown) + rest]
            (shown || o is None) && s@.subrange(pos as int, s@.len() as int) == field_part(
                key@,
                o,
                shown,
            ) + rest && !starts_with(rest, key@) ==> (r matches Some((v, sh, e)) && text_view(v)
                == o && sh == shown && s@.subrange(e as int, s@.len() as int) == rest),
        r matches Some((v, sh, e)) ==> (sh || v is None) && pos <= e <= s@.len(),
{
    match expect_literal(s, pos, key) {
        Some(q) => {
            proof {
                assert forall|o: Option<Seq<char>>, shown: bool, rest: Seq<u8>|
                    (shown || o is None) && s@.subrange(pos as int, s@.len() as int) == #[trigger] (
                    field_part(key@, o, shown) + rest) && !starts_with(rest, key@) implies shown
                    && s@.subrange(q as int, s@.len() as int) == optional_field(o) + rest by {
                    if !shown {
                        assert(field_part(key@, o, shown) + rest =~= rest);
                        assert(rest.subrange(0, key@.len() as int) =~= s@.subrange(
                            pos as int,
                            pos + key@.len(),
                        ));
                    } else {
                        assert(field_part(key@, o, shown) + rest =~= key@ + (optional_field(o)
                            + rest));
                        lemma_split_rest(s@, pos as int, key@, optional_field(o) + rest);
                    }
                }
            }
            match parse_optional(s, q) {
                Some((v, e)) => Some((v, true, e)),
                None => None,
            }
        },
        None => {
            proof {
                assert forall|o: Option<Seq<char>>, shown: bool, rest: Seq<u8>|
                    (shown || o is None) && s@.subrange(pos as int, s@.len() as int) == #[trigger] (
                    field_part(key@, o, shown) + rest) && !starts_with(rest, key@) implies !shown
                    && o is None && s@.subrange(pos as int, s@.len() as int) == rest by {
                    if shown {
                        assert(field_part(key@, o, shown) + rest =~= key@ + (optional_field(o)
                            + rest));
                        lemma_split_rest(s@, pos as int, key@, optional_field(o) + rest);
                    } else {
                        assert(field_part(key@, o, shown) + rest =~= rest);
                    }
                }
            }
            Some((None, false, pos))
        },
    }
}

/// Neither the body key nor the tags key begins like the title key, and the
/// tags key does not begin like the body key.
proof fn lemma_keys_differ(m: JournalView, show_body: bool)
    ensures
        !starts_with(field_part(body_key(), m.body, show_body) + rest_tags_key(m), title_key()),
        !starts_with(rest_tags_key(m), body_key()),
{
    let a = field_part(body_key(), m.body, show_body) + rest_tags_key(m);
    if starts_with(a, title_key()) {
        assert(a[2] == a.subrange(0, 9)[2]);
        assert(a[3] == a.subrange(0, 9)[3]);
        if show_body {
            assert(a[2] == body_key()[2]);
        } else {
            assert(a[3] == tags_key()[3]);
        }
    }
    let b = rest_tags_key(m);
    if starts_with(b, body_key()) {
        assert(b[2] == b.subrange(0, 8)[2]);
        assert(b[2] == tags_key()[2]);
    }
}

/// Reads the identifier and the title field of a record text.
#[verifier::rlimit(60)]
fn parse_head(s: &[u8]) -> (r: Option<(String, Option<String>, bool, usize)>)
    ensures
        forall|m: JournalView, st: bool, sb: bool| #[trigger]
            record_text(m, st, sb) == s@ && (st || m.title is None) ==> (r matches Some(
                (id, title, shown, p),
            ) && id@ == m.id && text_view(title) == m.title && shown == st && p <= s@.len()
                && s@.subrange(p as int, s@.len() as int) == field_part(body_key(), m.body, sb)
                + rest_tags_key(m)),
        r matches Some((id, title, shown, p)) ==> (shown || title is None) && p <= s@.len(),
{
    let id_lit: [u8; 6] = [123, 34, 105, 100, 34, 58];
    assert(id_lit@ =~= id_key());
    proof {
        assert forall|m: JournalView, st: bool, sb: bool| #[trigger]
            record_text(m, st, sb) == s@ implies literal_at(s@, 0, id_key()) && s@.subrange(
            6,
            s@.len() as int,
        ) == text_field(m.id) + rest_after_id(m, st, sb) by {
            assert(s@.subrange(0, s@.len() as int) =~= s@);
            lemma_split_rest(s@, 0, id_key(), text_field(m.id) + rest_after_id(m, st, sb));
        }
    }
    let p = match expect_literal(s, 0, &id_lit) {
        Some(p) => p,
        None => return None,
    };
    let (id, p) = match parse_text(s, p) {
        Some(x) => x,
        None => return None,
    };
    let title_lit: [u8; 9] = [44, 34, 116, 105, 116, 108, 101, 34, 58];
    assert(title_lit@ =~= title_key());
    proof {
        assert forall|m: JournalView, st: bool, sb: bool| #[trigger]
            record_text(m, st, sb) == s@ implies !starts_with(
            field_part(body_key(), m.body, sb) + rest_tags_key(m),
            title_key(),
        ) by {
            lemma_keys_differ(m, sb);
        }
    }
    let (title, shown, p) = match parse_field(s, p, &title_lit) {
        Some(x) => x,
        None => return None,
    };
    Some((id, title, shown, p))
}

/// Reads a record text, field by field: the record and which optional
/// fields were shown.
#[verifier::rlimit(60)]
fn parse_journal(s: &[u8]) -> (r: Option<(Journal, bool, bool)>)
    ensures
        forall|m: JournalView, st: bool, sb: bool| #[trigger]
            record_text(m, st, sb) == s@ && (st || m.title is None) && (sb || m.body is None) ==> (
            r matches Some((j, a, b)) && j@ == m && a == st && b == sb),
        r matches Some((j, a, b)) ==> (a || j@.title is None) && (b || j@.body is None),
{
    let (id, title, st, p) = match parse_head(s) {
        Some(x) => x,
        None => return None,
    };
    let body_lit: [u8; 8] = [44, 34, 98, 111, 100, 121, 34, 58];
    assert(body_lit@ =~= body_key());
    proof {
        assert forall|m: JournalView, st: bool, sb: bool| #[trigger]
            record_text(m, st, sb) == s@ implies !starts_with(rest_tags_key(m), body_key()) by {
            lemma_keys_differ(m, sb);
        }
    }
    let (body, sb, p) = match parse_field(s, p, &body_lit) {
        Some(x) => x,
        None => return None,
    };
    let tags_lit: [u8; 9] = [44, 34, 116, 97, 103, 115, 34, 58, 91];
    assert(tags_lit@ =~= tags_key());
    proof {
        assert forall|m: JournalView, st2: bool, sb2: bool| #[trigger]
            record_text(m, st2, sb2) == s@ && (st2 || m.title is None) && (sb2 || m.body is None)
            implies literal_at(s@, p as int, tags_key()) && s@.subrange(p + 9, s@.len() as int)
            == rest_tag_list(m) by {
            lemma_split_rest(s@, p as int, tags_key(), rest_tag_list(m));
        }
    }
    let p = match expect_literal(s, p, &tags_lit) {
        Some(p) => p,
        None => return None,
    };
    proof {
        assert forall|m: JournalView, st2: bool, sb2: bool| #[trigger]
            record_text(m, st2, sb2) == s@ && (st2 || m.title is None) && (sb2 || m.body is None)
            implies tags_then(s@, p as int, m.tags, closing()) by {}
    }
    let (tags, _p) = match parse_tags(s, p) {
        Some(x) => x,
        None => return None,
    };
    Some((Journal { id, title, body, tags }, st, sb))
}

impl Journal {
    /// Reads a record from a record text: the canonical text, or that text
    /// with an absent title or body field left out. `None` exactly when `s`
    /// is a text of no record.
    pub fn from_canonical(s: &[u8]) -> (r: Option<Journal>)
        ensures
            match r {
                Some(j) => is_record_text(s@, j@),
                None => forall|m: JournalView| !is_record_text(s@, m),
            },
            forall|m: JournalView| #[trigger]
                is_record_text(s@, m) ==> (r matches Some(j) && j@ == m),
            forall|m: JournalView| #[trigger] canonical(m) == s@ ==> (r matches Some(j) && j@ == m),
    {
        proof {
            assert forall|m: JournalView| #[trigger] canonical(m) == s@ implies is_record_text(
                s@,
                m,
            ) by {
                lemma_canonical_is_record_text(m);
            }
        }
        match parse_journal(s) {
            Some((j, st, sb)) => {
                let enc = j.to_record_text(st, sb);
                if same_bytes(enc.as_slice(), s) {
                    Some(j)
                } else {
                    None
                }
            },
            None => None,
        }
    }
}

} // verus!
