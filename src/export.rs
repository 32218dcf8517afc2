//! The plain-text export: one block per record,
//! `# <title or "Untitled">\n\n<body or nothing>\n\n`, in the order given.
use vstd::prelude::*;

use crate::codec::push_all;
use crate::types::{journals_view, Journal, JournalView};
use vstd::utf8::*;

verus! {

pub open spec fn untitled() -> Seq<u8> {
    seq![85u8, 110, 116, 105, 116, 108, 101, 100]
}

pub open spec fn heading_mark() -> Seq<u8> {
    seq![35u8, 32]
}

pub open spec fn blank_line() -> Seq<u8> {
    seq![10u8, 10]
}

/// The title shown for a record.
pub open spec fn shown_title(o: Option<Seq<char>>) -> Seq<u8> {
    match o {
        Some(t) => encode_utf8(t),
        None => untitled(),
    }
}

/// The body shown for a record.
pub open spec fn shown_body(o: Option<Seq<char>>) -> Seq<u8> {
    match o {
        Some(b) => encode_utf8(b),
        None => seq![],
    }
}

/// The block of one record.
pub open spec fn export_block(m: JournalView) -> Seq<u8> {
    heading_mark() + shown_title(m.title) + blank_line() + shown_body(m.body) + blank_line()
}

/// The blocks of the records, concatenated in order.
pub open spec fn export_text(ms: Seq<JournalView>) -> Seq<u8>
    decreases ms.len(),
{
    if ms.len() == 0 {
        seq![]
    } else {
        export_text(ms.drop_last()) + export_block(ms.last())
    }
}

fn push_block(out: &mut Vec<u8>, j: &Journal)
    ensures
        final(out)@ == old(out)@ + export_block(j@),
{
    let ghost start = out@;
    let mark: [u8; 2] = [35, 32];
    assert(mark@ =~= heading_mark());
    push_all(out, &mark);
    match &j.title {
        Some(t) => push_all(out, t.as_str().as_bytes()),
        None => {
            let u: [u8; 8] = [85, 110, 116, 105, 116, 108, 101, 100];
            assert(u@ =~= untitled());
            push_all(out, &u);
        },
    }
    let blank: [u8; 2] = [10, 10];
    assert(blank@ =~= blank_line());
    push_all(out, &blank);
    match &j.body {
        Some(b) => push_all(out, b.as_str().as_bytes()),
        None => {},
    }
    push_all(out, &blank);
    assert(out@ =~= start + export_block(j@));
}

/// The export text of `records`, in their order.
pub fn render_markdown(records: &Vec<Journal>) -> (r: Vec<u8>)
    ensures
        r@ == export_text(journals_view(records@)),
{
    let mut out: Vec<u8> = Vec::new();
    let mut i: usize = 0;
    while i < records.len()
        invariant
            i <= records@.len(),
            out@ == export_text(journals_view(records@.subrange(0, i as int))),
        decreases records@.len() - i,
    {
        push_block(&mut out, &records[i]);
        proof {
            let next = journals_view(records@.subrange(0, i + 1));
            assert(next.drop_last() =~= journals_view(records@.subrange(0, i as int)));
            assert(next.last() == records@[i as int]@);
        }
        i += 1;
    }
    assert(records@.subrange(0, records@.len() as int) =~= records@);
    out
}

/// Whether a tag differs from `t`.
pub open spec fn differs_from(t: Seq<char>) -> spec_fn(Seq<char>) -> bool {
    |x: Seq<char>| x != t
}

/// Removing two tags gives the same list in either order.
pub proof fn lemma_remove_commutes(tags: Seq<Seq<char>>, a: Seq<char>, b: Seq<char>)
    ensures
        tags.filter(differs_from(a)).filter(differs_from(b)) == tags.filter(
            differs_from(b),
        ).filter(differs_from(a)),
    decreases tags.len(),
{
    broadcast use Seq::lemma_filter_push;

    if tags.len() > 0 {
        let front = tags.drop_last();
        let x = tags.last();
        assert(tags =~= front.push(x));
        lemma_remove_commutes(front, a, b);
        let fa = front.filter(differs_from(a));
        let fb = front.filter(differs_from(b));
        assert(front.push(x).filter(differs_from(a)) == if x != a {
            fa.push(x)
        } else {
            fa
        });
        assert(front.push(x).filter(differs_from(b)) == if x != b {
            fb.push(x)
        } else {
            fb
        });
        if x != a {
            assert(fa.push(x).filter(differs_from(b)) == if x != b {
                fa.filter(differs_from(b)).push(x)
            } else {
                fa.filter(differs_from(b))
            });
        }
        if x != b {
            assert(fb.push(x).filter(differs_from(a)) == if x != a {
                fb.filter(differs_from(a)).push(x)
            } else {
                fb.filter(differs_from(a))
            });
        }
    }
}

/// The tags without any that equal `remove_tag`, in order.
pub fn remove_from_vec(tags: Vec<String>, remove_tag: String) -> (r: Vec<String>)
    ensures
        r@.map_values(|t: String| t@) == tags@.map_values(|t: String| t@).filter(
            differs_from(remove_tag@),
        ),
{
    let ghost pred = differs_from(remove_tag@);
    let ghost tv = tags@.map_values(|t: String| t@);
    let mut out: Vec<String> = Vec::new();
    let mut i: usize = 0;
    while i < tags.len()
        invariant
            i <= tags@.len(),
            pred == differs_from(remove_tag@),
            tv == tags@.map_values(|t: String| t@),
            out@.map_values(|t: String| t@) == tv.subrange(0, i as int).filter(pred),
        decreases tags@.len() - i,
    {
        let ghost before = out@;
        if tags[i] != remove_tag {
            out.push(tags[i].clone());
        }
        proof {
            let done = tv.subrange(0, i as int);
            assert(tv.subrange(0, i + 1) =~= done.push(tv[i as int]));
            done.lemma_filter_push(tv[i as int], pred);
            if pred(tv[i as int]) {
                assert(out@.map_values(|t: String| t@) =~= before.map_values(|t: String| t@).push(
                    tv[i as int],
                ));
            } else {
                assert(out@ == before);
            }
        }
        i += 1;
    }
    assert(tv.subrange(0, tags@.len() as int) =~= tv);
    out
}

} // verus!
