//! Decoding bytes into text: UTF-8, incrementally, and Latin-1.
//!
//! Malformed UTF-8 is replaced by U+FFFD, one replacement for each maximal
//! prefix of a well-formed sequence (the practice the Unicode standard
//! recommends, and that `String::from_utf8_lossy` follows). A sequence cut
//! off by the end of the input is not an error: it is held back, and
//! decoding resumes with it in front of the next input.
use vstd::prelude::*;

use crate::textfmt::push_char;
use vstd::utf8::{
    encode_scalar, encode_utf8, has_width_1_encoding, has_width_2_encoding, has_width_3_encoding,
    last_continuation_byte, leading_byte_width_1, leading_byte_width_2, leading_byte_width_3,
    leading_byte_width_4, second_last_continuation_byte, third_last_continuation_byte,
};

verus! {

/// The replacement character.
pub const REPLACEMENT: char = '\u{FFFD}';

/// The length of the sequence a byte can start, or 0 if it starts none.
pub open spec fn lead_width(b: u8) -> int {
    if b <= 0x7F {
        1
    } else if 0xC2 <= b <= 0xDF {
        2
    } else if 0xE0 <= b <= 0xEF {
        3
    } else if 0xF0 <= b <= 0xF4 {
        4
    } else {
        0
    }
}

/// Whether `b` may stand at position `k` (from 1) of a sequence led by `b0`.
pub open spec fn cont_ok(b0: u8, k: int, b: u8) -> bool {
    if k == 1 && b0 == 0xE0 {
        0xA0 <= b <= 0xBF
    } else if k == 1 && b0 == 0xED {
        0x80 <= b <= 0x9F
    } else if k == 1 && b0 == 0xF0 {
        0x90 <= b <= 0xBF
    } else if k == 1 && b0 == 0xF4 {
        0x80 <= b <= 0x8F
    } else {
        0x80 <= b <= 0xBF
    }
}

/// How long a prefix of a well-formed sequence `bs` starts with, counting
/// from position `k`.
pub open spec fn accepted(bs: Seq<u8>, k: int) -> int
    decreases lead_width(bs[0]) - k,
{
    if k < lead_width(bs[0]) && k < bs.len() && cont_ok(bs[0], k, bs[k]) {
        accepted(bs, k + 1)
    } else {
        k
    }
}

/// The code point a well-formed sequence of `w` bytes encodes.
pub open spec fn scalar_value(bs: Seq<u8>, w: int) -> int {
    if w == 1 {
        bs[0] as int
    } else if w == 2 {
        (bs[0] - 0xC0) * 64 + (bs[1] - 0x80)
    } else if w == 3 {
        (bs[0] - 0xE0) * 4096 + (bs[1] - 0x80) * 64 + (bs[2] - 0x80)
    } else {
        (bs[0] - 0xF0) * 262144 + (bs[1] - 0x80) * 4096 + (bs[2] - 0x80) * 64 + (bs[3] - 0x80)
    }
}

/// A Unicode scalar value: at most `0x10FFFF` and not a surrogate.
pub open spec fn is_scalar_value(v: int) -> bool {
    0 <= v <= 0x10FFFF && !(0xD800 <= v <= 0xDFFF)
}

/// The accepted prefix lies between its start and the width of the sequence,
/// within the input, and every byte in it after the lead is acceptable.
pub proof fn lemma_accepted_bounds(bs: Seq<u8>, k: int)
    requires
        bs.len() > 0,
        1 <= k <= lead_width(bs[0]),
        k <= bs.len(),
    ensures
        k <= accepted(bs, k) <= lead_width(bs[0]),
        accepted(bs, k) <= bs.len(),
        forall|j: int| 1 <= j < accepted(bs, k) && k <= j ==> cont_ok(bs[0], j, #[trigger] bs[j]),
    decreases lead_width(bs[0]) - k,
{
    if k < lead_width(bs[0]) && k < bs.len() && cont_ok(bs[0], k, bs[k]) {
        lemma_accepted_bounds(bs, k + 1);
    }
}

/// The code point of a whole well-formed sequence is a scalar value.
pub proof fn lemma_scalar_value(bs: Seq<u8>)
    requires
        bs.len() > 0,
        lead_width(bs[0]) >= 1,
        accepted(bs, 1) == lead_width(bs[0]),
    ensures
        is_scalar_value(scalar_value(bs, lead_width(bs[0]))),
{
    let w = lead_width(bs[0]);
    lemma_accepted_bounds(bs, 1);
    if w >= 2 {
        assert(cont_ok(bs[0], 1, bs[1]));
    }
    if w >= 3 {
        assert(cont_ok(bs[0], 2, bs[2]));
    }
    if w >= 4 {
        assert(cont_ok(bs[0], 3, bs[3]));
    }
}

/// Decoding `bs` as UTF-8: the text, and the incomplete sequence left at
/// its end (held back for more input).
pub open spec fn spec_decode_utf8(bs: Seq<u8>) -> (Seq<char>, Seq<u8>)
    decreases bs.len(),
{
    if bs.len() == 0 {
        (Seq::empty(), Seq::empty())
    } else {
        let w = lead_width(bs[0]);
        let k = if w == 0 {
            1
        } else {
            accepted(bs, 1)
        };
        proof {
            if w > 0 {
                lemma_accepted_bounds(bs, 1);
            }
        }
        if w > 0 && k == bs.len() && k < w {
            (Seq::empty(), bs)
        } else {
            let c = if w > 0 && k == w {
                scalar_value(bs, w) as char
            } else {
                REPLACEMENT
            };
            let r = spec_decode_utf8(bs.skip(k));
            (seq![c] + r.0, r.1)
        }
    }
}

/// Decoding `bs` as Latin-1: each byte is the character of that number.
pub open spec fn spec_latin1(bs: Seq<u8>) -> Seq<char> {
    bs.map_values(|b: u8| b as char)
}

/// Whether the prefix accepted from position `j` is decided within `x`: it
/// stopped at a byte of `x`, or took the whole sequence.
pub open spec fn decided(x: Seq<u8>, j: int) -> bool {
    accepted(x, j) < x.len() || accepted(x, j) == lead_width(x[0])
}

proof fn lemma_accepted_extend(x: Seq<u8>, y: Seq<u8>, j: int)
    requires
        x.len() > 0,
        1 <= j <= lead_width(x[0]),
        j <= x.len(),
        decided(x, j),
    ensures
        accepted(x + y, j) == accepted(x, j),
    decreases lead_width(x[0]) - j,
{
    let b = x + y;
    assert(b[0] == x[0]);
    lemma_accepted_bounds(x, j);
    if j < lead_width(x[0]) && j < x.len() && cont_ok(x[0], j, x[j]) {
        assert(b[j] == x[j]);
        lemma_accepted_extend(x, y, j + 1);
    } else if j < lead_width(x[0]) && j < x.len() {
        assert(b[j] == x[j]);
    }
}

/// Decoding in two pieces, the held-back bytes of the first in front of the
/// second, gives the same text and leaves the same bytes held back as
/// decoding the whole input at once.
pub proof fn lemma_decode_split(x: Seq<u8>, y: Seq<u8>)
    ensures
        spec_decode_utf8(x + y) == ({
            let first = spec_decode_utf8(x);
            let second = spec_decode_utf8(first.1 + y);
            (first.0 + second.0, second.1)
        }),
    decreases x.len(),
{
    let first = spec_decode_utf8(x);
    let b = x + y;
    if x.len() == 0 {
        assert(b =~= y);
        assert(first.1 + y =~= y);
        assert(first.0 + spec_decode_utf8(y).0 =~= spec_decode_utf8(y).0);
        return ;
    }
    assert(b[0] == x[0]);
    let w = lead_width(x[0]);
    if w == 0 {
        assert(b.skip(1) =~= x.skip(1) + y);
        lemma_decode_split(x.skip(1), y);
        let second = spec_decode_utf8(first.1 + y);
        assert(seq![REPLACEMENT] + spec_decode_utf8(x.skip(1)).0 + second.0 =~= seq![REPLACEMENT] + (
        spec_decode_utf8(x.skip(1)).0 + second.0));
        return ;
    }
    lemma_accepted_bounds(x, 1);
    let k = accepted(x, 1);
    if k == x.len() && k < w {
        assert(first == (Seq::<char>::empty(), x));
        let second = spec_decode_utf8(x + y);
        assert(Seq::<char>::empty() + second.0 =~= second.0);
        return ;
    }
    lemma_accepted_extend(x, y, 1);
    assert(accepted(b, 1) == k);
    assert(b.skip(k) =~= x.skip(k) + y);
    if k == w {
        assert forall|i: int| 0 <= i < w implies b[i] == x[i] by {}
        assert(scalar_value(b, w) == scalar_value(x, w));
    }
    lemma_decode_split(x.skip(k), y);
    let c = if k == w {
        scalar_value(x, w) as char
    } else {
        REPLACEMENT
    };
    let second = spec_decode_utf8(first.1 + y);
    assert(seq![c] + spec_decode_utf8(x.skip(k)).0 + second.0 =~= seq![c] + (spec_decode_utf8(
        x.skip(k),
    ).0 + second.0));
}

/// The character with a given code point (`char::from_u32`): present
/// exactly for scalar values, and then holding that code point.
#[verifier::external_body]
fn char_from_u32(v: u32) -> (r: Option<char>)
    ensures
        r is Some <==> is_scalar_value(v as int),
        r matches Some(c) ==> c as u32 == v,
{
    char::from_u32(v)
}

/// The length of the sequence a byte can start, or 0.
fn lead_width_exec(b: u8) -> (w: usize)
    ensures
        w == lead_width(b),
{
    if b <= 0x7F {
        1
    } else if 0xC2 <= b && b <= 0xDF {
        2
    } else if 0xE0 <= b && b <= 0xEF {
        3
    } else if 0xF0 <= b && b <= 0xF4 {
        4
    } else {
        0
    }
}

/// Whether `b` may stand at position `k` of a sequence led by `b0`.
fn cont_ok_exec(b0: u8, k: usize, b: u8) -> (r: bool)
    ensures
        r == cont_ok(b0, k as int, b),
{
    if k == 1 && b0 == 0xE0 {
        0xA0 <= b && b <= 0xBF
    } else if k == 1 && b0 == 0xED {
        0x80 <= b && b <= 0x9F
    } else if k == 1 && b0 == 0xF0 {
        0x90 <= b && b <= 0xBF
    } else if k == 1 && b0 == 0xF4 {
        0x80 <= b && b <= 0x8F
    } else {
        0x80 <= b && b <= 0xBF
    }
}

/// The code point of the `w`-byte sequence at `buf[i..]`.
fn scalar_value_exec(buf: &Vec<u8>, i: usize, w: usize) -> (v: u32)
    requires
        1 <= w <= 4,
        i + w <= buf@.len(),
        w >= 2 ==> 0xC0 <= buf@[i as int],
        w >= 3 ==> 0xE0 <= buf@[i as int],
        w >= 4 ==> 0xF0 <= buf@[i as int] <= 0xF7,
        w == 2 ==> buf@[i as int] <= 0xDF,
        w == 3 ==> buf@[i as int] <= 0xEF,
        forall|j: int| 1 <= j < w ==> 0x80 <= #[trigger] buf@[i + j] <= 0xBF,
    ensures
        v == scalar_value(buf@.skip(i as int), w as int),
{
    let len = buf.len();
    let b0 = buf[i] as u32;
    if w == 1 {
        b0
    } else if w == 2 {
        assert(0x80 <= buf@[i + 1] <= 0xBF);
        (b0 - 0xC0) * 64 + (buf[i + 1] as u32 - 0x80)
    } else if w == 3 {
        assert(0x80 <= buf@[i + 1] <= 0xBF);
        assert(0x80 <= buf@[i + 2] <= 0xBF);
        (b0 - 0xE0) * 4096 + (buf[i + 1] as u32 - 0x80) * 64 + (buf[i + 2] as u32 - 0x80)
    } else {
        assert(0x80 <= buf@[i + 1] <= 0xBF);
        assert(0x80 <= buf@[i + 2] <= 0xBF);
        assert(0x80 <= buf@[i + 3] <= 0xBF);
        (b0 - 0xF0) * 262144 + (buf[i + 1] as u32 - 0x80) * 4096 + (buf[i + 2] as u32 - 0x80) * 64 + (
        buf[i + 3] as u32 - 0x80)
    }
}

/// Decodes `pending` followed by `new_bytes` as UTF-8. Malformed bytes
/// become U+FFFD; an incomplete sequence at the end is left in `pending`
/// for the next call.
pub fn decode_utf8_incremental(pending: &mut Vec<u8>, new_bytes: &[u8]) -> (r: String)
    ensures
        (r@, final(pending)@) == spec_decode_utf8(old(pending)@ + new_bytes@),
{
    let mut buf: Vec<u8> = Vec::new();
    std::mem::swap(&mut buf, pending);
    let ghost p0 = buf@;
    let mut j: usize = 0;
    while j < new_bytes.len()
        invariant
            j <= new_bytes@.len(),
            buf@ == p0 + new_bytes@.subrange(0, j as int),
        decreases new_bytes@.len() - j,
    {
        buf.push(new_bytes[j]);
        assert(p0 + new_bytes@.subrange(0, j + 1) =~= (p0 + new_bytes@.subrange(0, j as int)).push(
            new_bytes@[j as int],
        ));
        j = j + 1;
    }
    assert(new_bytes@.subrange(0, new_bytes@.len() as int) =~= new_bytes@);
    let ghost all = buf@;
    assert(all == old(pending)@ + new_bytes@);
    let n = buf.len();
    let mut out = String::new();
    let mut i: usize = 0;
    assert(all.skip(0) =~= all);
    while i < n
        invariant
            buf@ == all,
            all == old(pending)@ + new_bytes@,
            n == all.len(),
            i <= n,
            pending@ == Seq::<u8>::empty(),
            spec_decode_utf8(all) == (out@ + spec_decode_utf8(all.skip(i as int)).0, spec_decode_utf8(
                all.skip(i as int),
            ).1),
        decreases n - i,
    {
        let ghost rest = all.skip(i as int);
        let b0 = buf[i];
        assert(rest[0] == b0);
        let w = lead_width_exec(b0);
        if w == 0 {
            let ghost o = out@;
            push_char(&mut out, REPLACEMENT);
            proof {
                let r = spec_decode_utf8(rest.skip(1));
                assert(rest.skip(1) =~= all.skip(i + 1));
                assert(o + (seq![REPLACEMENT] + r.0) =~= out@ + r.0);
            }
            i = i + 1;
        } else {
            let mut k: usize = 1;
            while k < w && i + k < n && cont_ok_exec(b0, k, buf[i + k])
                invariant
                    buf@ == all,
                    n == all.len(),
                    i < n,
                    rest == all.skip(i as int),
                    rest[0] == b0,
                    w == lead_width(b0),
                    1 <= k <= w,
                    i + k <= n,
                    accepted(rest, 1) == accepted(rest, k as int),
                decreases w - k,
            {
                assert(rest[k as int] == all[i + k]);
                k = k + 1;
            }
            proof {
                if k < w && i + k < n {
                    assert(rest[k as int] == all[i + k]);
                }
                assert(accepted(rest, k as int) == k);
                lemma_accepted_bounds(rest, 1);
            }
            if i + k == n && k < w {
                let mut tail: Vec<u8> = Vec::new();
                let mut t = i;
                while t < n
                    invariant
                        buf@ == all,
                        n == all.len(),
                        i <= t <= n,
                        tail@ == all.subrange(i as int, t as int),
                    decreases n - t,
                {
                    tail.push(buf[t]);
                    assert(all.subrange(i as int, t + 1) =~= all.subrange(i as int, t as int).push(all[t as int]));
                    t = t + 1;
                }
                assert(tail@ =~= rest);
                assert(spec_decode_utf8(rest) == (Seq::<char>::empty(), rest));
                *pending = tail;
                assert(out@ + Seq::<char>::empty() =~= out@);
                return out;
            }
            let ghost o = out@;
            let ghost c = if k == w {
                scalar_value(rest, w as int) as char
            } else {
                REPLACEMENT
            };
            if k == w {
                proof {
                    lemma_scalar_value(rest);
                    lemma_accepted_bounds(rest, 1);
                    assert forall|j: int| 1 <= j < w implies 0x80 <= #[trigger] buf@[i + j] <= 0xBF by {
                        assert(cont_ok(rest[0], j, rest[j]));
                        assert(rest[j] == all[i + j]);
                    }
                }
                let v = scalar_value_exec(&buf, i, w);
                match char_from_u32(v) {
                    Some(ch) => {
                        proof {
                            vstd::utf8::char_u32_cast(ch, v);
                            assert(v as int == scalar_value(rest, w as int));
                        }
                        assert(ch == c);
                        push_char(&mut out, ch);
                    },
                    None => {
                        assert(false);
                    },
                }
            } else {
                push_char(&mut out, REPLACEMENT);
            }
            proof {
                let r = spec_decode_utf8(rest.skip(k as int));
                assert(rest.skip(k as int) =~= all.skip(i + k));
                assert(out@ == o.push(c));
                assert(o + (seq![c] + r.0) =~= out@ + r.0);
            }
            i = i + k;
        }
    }
    proof {
        assert(all.skip(n as int).len() == 0);
        assert(out@ + Seq::<char>::empty() =~= out@);
    }
    out
}

/// Decodes bytes as Latin-1.
pub fn latin1_chars(data: &[u8]) -> (r: String)
    ensures
        r@ == spec_latin1(data@),
{
    let mut r = String::new();
    let mut i: usize = 0;
    while i < data.len()
        invariant
            i <= data@.len(),
            r@ == spec_latin1(data@.subrange(0, i as int)),
        decreases data@.len() - i,
    {
        push_char(&mut r, data[i] as char);
        assert(spec_latin1(data@.subrange(0, i + 1)) =~= spec_latin1(data@.subrange(0, i as int)).push(
            data@[i as int] as char,
        ));
        i = i + 1;
    }
    assert(data@.subrange(0, data@.len() as int) =~= data@);
    r
}


proof fn lemma_bytes_width2(v: u32)
    requires
        0x80 <= v <= 0x7FF,
    ensures
        0xC2 <= leading_byte_width_2(v) <= 0xDF,
        0x80 <= last_continuation_byte(v) <= 0xBF,
        (leading_byte_width_2(v) - 0xC0) * 64 + (last_continuation_byte(v) - 0x80) == v,
{
    let b0 = leading_byte_width_2(v);
    let b1 = last_continuation_byte(v);
    assert(0xC2 <= b0 <= 0xDF && 0x80 <= b1 <= 0xBF && (b0 - 0xC0) * 64 + (b1 - 0x80) == v)
        by (bit_vector)
        requires
            0x80 <= v <= 0x7FF,
            b0 == 0xC0 | ((v >> 6) & 0x1F) as u8,
            b1 == 0x80 | (v & 0x3F) as u8,
    ;
}

proof fn lemma_bytes_width3(v: u32)
    requires
        0x800 <= v <= 0xFFFF,
        !(0xD800 <= v <= 0xDFFF),
    ensures
        0xE0 <= leading_byte_width_3(v) <= 0xEF,
        cont_ok(leading_byte_width_3(v), 1, second_last_continuation_byte(v)),
        0x80 <= last_continuation_byte(v) <= 0xBF,
        (leading_byte_width_3(v) - 0xE0) * 4096 + (second_last_continuation_byte(v) - 0x80) * 64 + (
        last_continuation_byte(v) - 0x80) == v,
{
    let b0 = leading_byte_width_3(v);
    let b1 = second_last_continuation_byte(v);
    let b2 = last_continuation_byte(v);
    assert(0xE0 <= b0 <= 0xEF && 0x80 <= b1 <= 0xBF && 0x80 <= b2 <= 0xBF && (b0 == 0xE0 ==> b1
        >= 0xA0) && (b0 == 0xED ==> b1 <= 0x9F) && (b0 - 0xE0) * 4096 + (b1 - 0x80) * 64 + (b2 - 0x80)
        == v) by (bit_vector)
        requires
            0x800 <= v <= 0xFFFF,
            !(0xD800 <= v <= 0xDFFF),
            b0 == 0xE0 | ((v >> 12) & 0x0F) as u8,
            b1 == 0x80 | ((v >> 6) & 0x3F) as u8,
            b2 == 0x80 | (v & 0x3F) as u8,
    ;
}

proof fn lemma_bytes_width4(v: u32)
    requires
        0x10000 <= v <= 0x10FFFF,
    ensures
        0xF0 <= leading_byte_width_4(v) <= 0xF4,
        cont_ok(leading_byte_width_4(v), 1, third_last_continuation_byte(v)),
        0x80 <= second_last_continuation_byte(v) <= 0xBF,
        0x80 <= last_continuation_byte(v) <= 0xBF,
        (leading_byte_width_4(v) - 0xF0) * 262144 + (third_last_continuation_byte(v) - 0x80) * 4096 + (
        second_last_continuation_byte(v) - 0x80) * 64 + (last_continuation_byte(v) - 0x80) == v,
{
    let b0 = leading_byte_width_4(v);
    let b1 = third_last_continuation_byte(v);
    let b2 = second_last_continuation_byte(v);
    let b3 = last_continuation_byte(v);
    assert(0xF0 <= b0 <= 0xF4 && 0x80 <= b1 <= 0xBF && 0x80 <= b2 <= 0xBF && 0x80 <= b3 <= 0xBF && (
    b0 == 0xF0 ==> b1 >= 0x90) && (b0 == 0xF4 ==> b1 <= 0x8F) && (b0 - 0xF0) * 262144 + (b1 - 0x80)
        * 4096 + (b2 - 0x80) * 64 + (b3 - 0x80) == v) by (bit_vector)
        requires
            0x10000 <= v <= 0x10FFFF,
            b0 == 0xF0 | ((v >> 18) & 0x7) as u8,
            b1 == 0x80 | ((v >> 12) & 0x3F) as u8,
            b2 == 0x80 | ((v >> 6) & 0x3F) as u8,
            b3 == 0x80 | (v & 0x3F) as u8,
    ;
}

proof fn lemma_bytes_width1(v: u32)
    requires
        v <= 0x7F,
    ensures
        leading_byte_width_1(v) == v,
{
    let b0 = leading_byte_width_1(v);
    assert(b0 == v) by (bit_vector)
        requires
            v <= 0x7F,
            b0 == (v & 0x7F) as u8,
    ;
}

/// Decoding the UTF-8 encoding of one character followed by more bytes
/// gives that character, then the decoding of the rest.
proof fn lemma_decode_scalar(c: char, r: Seq<u8>)
    ensures
        spec_decode_utf8(encode_scalar(c as u32) + r) == (seq![c] + spec_decode_utf8(r).0, spec_decode_utf8(
            r,
        ).1),
{
    let v = c as u32;
    vstd::utf8::char_is_scalar(c);
    let e = encode_scalar(v);
    let b = e + r;
    let w = e.len() as int;
    assert(b.len() >= w);
    assert forall|j: int| 0 <= j < w implies #[trigger] b[j] == e[j] by {}
    if has_width_1_encoding(v) {
        lemma_bytes_width1(v);
        assert(accepted(b, 1) == 1);
    } else if has_width_2_encoding(v) {
        lemma_bytes_width2(v);
        assert(b[1] == last_continuation_byte(v));
        assert(accepted(b, 2) == 2);
        assert(accepted(b, 1) == 2);
    } else if has_width_3_encoding(v) {
        lemma_bytes_width3(v);
        assert(b[1] == second_last_continuation_byte(v));
        assert(b[2] == last_continuation_byte(v));
        assert(accepted(b, 3) == 3);
        assert(accepted(b, 2) == 3);
        assert(accepted(b, 1) == 3);
    } else {
        lemma_bytes_width4(v);
        assert(b[1] == third_last_continuation_byte(v));
        assert(b[2] == second_last_continuation_byte(v));
        assert(b[3] == last_continuation_byte(v));
        assert(accepted(b, 4) == 4);
        assert(accepted(b, 3) == 4);
        assert(accepted(b, 2) == 4);
        assert(accepted(b, 1) == 4);
    }
    assert(lead_width(b[0]) == w);
    assert(scalar_value(b, w) == v as int);
    vstd::utf8::char_u32_cast(c, v);
    assert(b.skip(w) =~= r);
}

/// Decoding the UTF-8 encoding of a text gives back the text, with no bytes
/// held back.
pub proof fn lemma_decode_encoded(cs: Seq<char>)
    ensures
        spec_decode_utf8(encode_utf8(cs)) == (cs, Seq::<u8>::empty()),
    decreases cs.len(),
{
    if cs.len() == 0 {
        assert(encode_utf8(cs) =~= Seq::<u8>::empty());
    } else {
        lemma_decode_encoded(cs.drop_first());
        lemma_decode_scalar(cs[0], encode_utf8(cs.drop_first()));
        assert(seq![cs[0]] + cs.drop_first() =~= cs);
    }
}

} // verus!
