//! Quoted byte strings in the JSON style, used by both the canonical record
//! text and the envelope file.
use vstd::prelude::*;

verus! {

pub const QUOTE: u8 = 34;

pub const BACKSLASH: u8 = 92;

pub const LETTER_U: u8 = 117;

pub const DIGIT_ZERO: u8 = 48;

/// The lowercase hexadecimal digit of `d` (below 16).
pub open spec fn hex_digit(d: u8) -> u8 {
    if d < 10 {
        (48 + d) as u8
    } else {
        (87 + d) as u8
    }
}

pub open spec fn is_hex_digit(c: u8) -> bool {
    (48 <= c <= 57) || (97 <= c <= 102)
}

pub open spec fn hex_value(c: u8) -> u8 {
    if c <= 57 {
        (c - 48) as u8
    } else {
        (c - 87) as u8
    }
}

/// Whether a control byte has a one-letter escape: backspace, form feed,
/// line feed, carriage return, tab.
pub open spec fn has_short_escape(b: u8) -> bool {
    b == 8 || b == 12 || b == 10 || b == 13 || b == 9
}

/// The letter of a one-letter escape: `b`, `f`, `n`, `r`, `t`.
pub open spec fn short_escape_letter(b: u8) -> u8 {
    if b == 8 {
        98
    } else if b == 12 {
        102
    } else if b == 10 {
        110
    } else if b == 13 {
        114
    } else {
        116
    }
}

pub open spec fn is_short_escape_letter(c: u8) -> bool {
    c == 98 || c == 102 || c == 110 || c == 114 || c == 116
}

/// The control byte that a one-letter escape stands for.
pub open spec fn short_escape_value(c: u8) -> u8 {
    if c == 98 {
        8
    } else if c == 102 {
        12
    } else if c == 110 {
        10
    } else if c == 114 {
        13
    } else {
        9
    }
}

/// How one byte stands inside a quoted string.
pub open spec fn escape_byte(b: u8) -> Seq<u8> {
    if b == QUOTE {
        seq![BACKSLASH, QUOTE]
    } else if b == BACKSLASH {
        seq![BACKSLASH, BACKSLASH]
    } else if has_short_escape(b) {
        seq![BACKSLASH, short_escape_letter(b)]
    } else if b < 32 {
        seq![BACKSLASH, LETTER_U, DIGIT_ZERO, DIGIT_ZERO, hex_digit(b / 16), hex_digit(b % 16)]
    } else {
        seq![b]
    }
}

/// The escaped form of a byte string.
pub open spec fn escape(s: Seq<u8>) -> Seq<u8>
    decreases s.len(),
{
    if s.len() == 0 {
        seq![]
    } else {
        escape(s.drop_last()) + escape_byte(s.last())
    }
}

/// A byte string between double quotes, escaped.
pub open spec fn quoted(s: Seq<u8>) -> Seq<u8> {
    seq![QUOTE] + escape(s) + seq![QUOTE]
}

/// Reads the inside of a quoted string from position `i` on, after the
/// opening quote, with `acc` the bytes read so far: the bytes and the
/// position after the closing quote.
pub open spec fn scan_quoted(s: Seq<u8>, i: int, acc: Seq<u8>) -> Option<(Seq<u8>, int)>
    decreases s.len() - i,
{
    if i < 0 || i >= s.len() {
        None
    } else if s[i] == QUOTE {
        Some((acc, i + 1))
    } else if s[i] == BACKSLASH {
        if i + 1 >= s.len() {
            None
        } else if s[i + 1] == QUOTE || s[i + 1] == BACKSLASH {
            scan_quoted(s, i + 2, acc.push(s[i + 1]))
        } else if is_short_escape_letter(s[i + 1]) {
            scan_quoted(s, i + 2, acc.push(short_escape_value(s[i + 1])))
        } else if s[i + 1] == LETTER_U && i + 5 < s.len() && s[i + 2] == DIGIT_ZERO && s[i + 3]
            == DIGIT_ZERO && is_hex_digit(s[i + 4]) && is_hex_digit(s[i + 5]) {
            scan_quoted(
                s,
                i + 6,
                acc.push((hex_value(s[i + 4]) * 16 + hex_value(s[i + 5])) as u8),
            )
        } else {
            None
        }
    } else if s[i] < 32 {
        None
    } else {
        scan_quoted(s, i + 1, acc.push(s[i]))
    }
}

/// The quoted string that starts at position `i`: its bytes and the position
/// after it.
pub open spec fn quoted_at(s: Seq<u8>, i: int) -> Option<(Seq<u8>, int)> {
    if 0 <= i < s.len() && s[i] == QUOTE {
        scan_quoted(s, i + 1, seq![])
    } else {
        None
    }
}

proof fn lemma_hex_digit(d: u8)
    requires
        d < 16,
    ensures
        is_hex_digit(hex_digit(d)),
        hex_value(hex_digit(d)) == d,
{
}

/// An escaped byte string is at most six times as long.
pub proof fn lemma_escape_len(s: Seq<u8>)
    ensures
        escape(s).len() <= 6 * s.len(),
    decreases s.len(),
{
    if s.len() > 0 {
        lemma_escape_len(s.drop_last());
    }
}

/// Reading past the escaped form of one byte.
proof fn lemma_scan_escape_byte(s: Seq<u8>, i: int, acc: Seq<u8>, b: u8)
    requires
        0 <= i,
        i + escape_byte(b).len() <= s.len(),
        s.subrange(i, i + escape_byte(b).len()) == escape_byte(b),
    ensures
        scan_quoted(s, i, acc) == scan_quoted(s, i + escape_byte(b).len(), acc.push(b)),
{
    let e = escape_byte(b);
    assert(forall|k: int| 0 <= k < e.len() ==> s[i + k] == #[trigger] e[k]) by {
        assert forall|k: int| 0 <= k < e.len() implies s[i + k] == #[trigger] e[k] by {
            assert(s.subrange(i, i + e.len())[k] == s[i + k]);
        }
    }
    if b == QUOTE || b == BACKSLASH {
        assert(s[i] == BACKSLASH && s[i + 1] == b);
    } else if has_short_escape(b) {
        assert(s[i] == BACKSLASH && s[i + 1] == short_escape_letter(b));
    } else if b < 32 {
        lemma_hex_digit(b / 16);
        lemma_hex_digit(b % 16);
        assert(s[i] == BACKSLASH && s[i + 1] == LETTER_U && s[i + 2] == DIGIT_ZERO && s[i + 3]
            == DIGIT_ZERO && s[i + 4] == hex_digit(b / 16) && s[i + 5] == hex_digit(b % 16));
        assert((hex_value(s[i + 4]) * 16 + hex_value(s[i + 5])) as u8 == b);
    } else {
        assert(e[0] == b);
        assert(s[i] == b);
    }
}

/// Reading past the escaped form of a whole byte string.
proof fn lemma_scan_escape(s: Seq<u8>, i: int, acc: Seq<u8>, b: Seq<u8>)
    requires
        0 <= i,
        i + escape(b).len() <= s.len(),
        s.subrange(i, i + escape(b).len()) == escape(b),
    ensures
        scan_quoted(s, i, acc) == scan_quoted(s, i + escape(b).len(), acc + b),
    decreases b.len(),
{
    if b.len() == 0 {
        assert(acc + b =~= acc);
    } else {
        let front = b.drop_last();
        let e0 = escape(front);
        let e1 = escape_byte(b.last());
        assert(escape(b) == e0 + e1);
        assert(s.subrange(i, i + e0.len()) =~= e0) by {
            assert(s.subrange(i, i + e0.len()) =~= s.subrange(i, i + escape(b).len()).subrange(
                0,
                e0.len() as int,
            ));
        }
        lemma_scan_escape(s, i, acc, front);
        let j = i + e0.len();
        assert(s.subrange(j, j + e1.len()) =~= e1) by {
            assert(s.subrange(j, j + e1.len()) =~= s.subrange(i, i + escape(b).len()).subrange(
                e0.len() as int,
                escape(b).len() as int,
            ));
        }
        lemma_scan_escape_byte(s, j, acc + front, b.last());
        assert((acc + front).push(b.last()) =~= acc + b);
    }
}

/// A quoted string reads back as the bytes it was made from.
pub proof fn lemma_quoted_at(s: Seq<u8>, i: int, b: Seq<u8>)
    requires
        0 <= i,
        i + quoted(b).len() <= s.len(),
        s.subrange(i, i + quoted(b).len()) == quoted(b),
    ensures
        quoted_at(s, i) == Some((b, i + quoted(b).len())),
{
    let q = quoted(b);
    let n = escape(b).len() as int;
    assert(s[i] == q[0]);
    assert(s.subrange(i + 1, i + 1 + n) =~= escape(b)) by {
        assert(s.subrange(i + 1, i + 1 + n) =~= s.subrange(i, i + q.len()).subrange(1, 1 + n));
    }
    lemma_scan_escape(s, i + 1, seq![], b);
    assert(seq![] + b =~= b);
    assert(s[i + 1 + n] == q[1 + n]);
}

fn hex_digit_exec(d: u8) -> (r: u8)
    requires
        d < 16,
    ensures
        r == hex_digit(d),
{
    if d < 10 {
        48 + d
    } else {
        87 + d
    }
}

/// Appends the escaped form of one byte.
fn push_escaped_byte(out: &mut Vec<u8>, b: u8)
    ensures
        final(out)@ == old(out)@ + escape_byte(b),
{
    let ghost start = out@;
    if b == QUOTE || b == BACKSLASH {
        out.push(BACKSLASH);
        out.push(b);
    } else if b == 8 || b == 12 || b == 10 || b == 13 || b == 9 {
        out.push(BACKSLASH);
        out.push(
            if b == 8 {
                98
            } else if b == 12 {
                102
            } else if b == 10 {
                110
            } else if b == 13 {
                114
            } else {
                116
            },
        );
    } else if b < 32 {
        out.push(BACKSLASH);
        out.push(LETTER_U);
        out.push(DIGIT_ZERO);
        out.push(DIGIT_ZERO);
        out.push(hex_digit_exec(b / 16));
        out.push(hex_digit_exec(b % 16));
    } else {
        out.push(b);
    }
    assert(out@ =~= start + escape_byte(b));
}

/// Appends `b` as a quoted string.
pub fn push_quoted(out: &mut Vec<u8>, b: &[u8])
    ensures
        final(out)@ == old(out)@ + quoted(b@),
{
    let ghost start = out@;
    out.push(QUOTE);
    let mut i: usize = 0;
    while i < b.len()
        invariant
            i <= b@.len(),
            out@ == start + seq![QUOTE] + escape(b@.subrange(0, i as int)),
        decreases b@.len() - i,
    {
        push_escaped_byte(out, b[i]);
        proof {
            let next = b@.subrange(0, i + 1);
            assert(next.drop_last() =~= b@.subrange(0, i as int));
        }
        i += 1;
    }
    out.push(QUOTE);
    assert(b@.subrange(0, b@.len() as int) =~= b@);
    assert(out@ =~= start + quoted(b@));
}

/// Appends every byte of `lit`.
pub fn push_all(out: &mut Vec<u8>, lit: &[u8])
    ensures
        final(out)@ == old(out)@ + lit@,
{
    let ghost start = out@;
    let mut i: usize = 0;
    while i < lit.len()
        invariant
            i <= lit@.len(),
            out@ == start + lit@.subrange(0, i as int),
        decreases lit@.len() - i,
    {
        out.push(lit[i]);
        proof {
            assert(start + lit@.subrange(0, i + 1) =~= (start + lit@.subrange(0, i as int)).push(
                lit@[i as int],
            ));
        }
        i += 1;
    }
    assert(lit@.subrange(0, lit@.len() as int) =~= lit@);
}

/// Whether `lit` stands in `s` at position `i`.
pub open spec fn literal_at(s: Seq<u8>, i: int, lit: Seq<u8>) -> bool {
    0 <= i && i + lit.len() <= s.len() && s.subrange(i, i + lit.len()) == lit
}

/// The position after `lit` where it stands in `s` at `i`.
pub fn expect_literal(s: &[u8], i: usize, lit: &[u8]) -> (r: Option<usize>)
    ensures
        r is Some <==> literal_at(s@, i as int, lit@),
        r is Some ==> r->0 == i + lit@.len(),
{
    if lit.len() > s.len() || i > s.len() - lit.len() {
        return None;
    }
    let mut k: usize = 0;
    while k < lit.len()
        invariant
            k <= lit@.len(),
            i + lit@.len() <= s@.len(),
            s@.len() <= usize::MAX,
            forall|m: int| 0 <= m < k ==> s@[i + m] == lit@[m],
        decreases lit@.len() - k,
    {
        if s[i + k] != lit[k] {
            assert(s@.subrange(i as int, i + lit@.len())[k as int] != lit@[k as int]);
            return None;
        }
        k += 1;
    }
    assert(s@.subrange(i as int, i + lit@.len()) =~= lit@);
    Some(i + lit.len())
}

fn is_hex_digit_exec(c: u8) -> (r: bool)
    ensures
        r == is_hex_digit(c),
{
    (48 <= c && c <= 57) || (97 <= c && c <= 102)
}

fn hex_value_exec(c: u8) -> (r: u8)
    requires
        is_hex_digit(c),
    ensures
        r == hex_value(c),
        r < 16,
{
    if c <= 57 {
        c - 48
    } else {
        c - 87
    }
}

/// Reads the quoted string that starts at position `i`.
pub fn parse_quoted(s: &[u8], i: usize) -> (r: Option<(Vec<u8>, usize)>)
    ensures
        match quoted_at(s@, i as int) {
            Some((b, e)) => r matches Some((v, f)) && v@ == b && f == e,
            None => r is None,
        },
        r matches Some((v, f)) ==> i < f <= s@.len(),
{
    if i >= s.len() || s[i] != QUOTE {
        return None;
    }
    let mut out: Vec<u8> = Vec::new();
    let mut k: usize = i + 1;
    while k < s.len()
        invariant
            i < k <= s@.len(),
            quoted_at(s@, i as int) == scan_quoted(s@, k as int, out@),
        decreases s@.len() - k,
    {
        let c = s[k];
        if c == QUOTE {
            return Some((out, k + 1));
        } else if c == BACKSLASH {
            if k + 1 >= s.len() {
                return None;
            }
            let d = s[k + 1];
            if d == QUOTE || d == BACKSLASH {
                out.push(d);
                k = k + 2;
            } else if d == 98 || d == 102 || d == 110 || d == 114 || d == 116 {
                out.push(
                    if d == 98 {
                        8
                    } else if d == 102 {
                        12
                    } else if d == 110 {
                        10
                    } else if d == 114 {
                        13
                    } else {
                        9
                    },
                );
                k = k + 2;
            } else if d == LETTER_U && s.len() - k > 5 && s[k + 2] == DIGIT_ZERO && s[k + 3]
                == DIGIT_ZERO && is_hex_digit_exec(s[k + 4]) && is_hex_digit_exec(s[k + 5]) {
                let hi = hex_value_exec(s[k + 4]);
                let lo = hex_value_exec(s[k + 5]);
                out.push(hi * 16 + lo);
                k = k + 6;
            } else {
                return None;
            }
        } else if c < 32 {
            return None;
        } else {
            out.push(c);
            k = k + 1;
        }
    }
    None
}

} // verus!
