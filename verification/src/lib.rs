//! A headless VT100 / VT220 / `TERM=linux` terminal emulator: an escape
//! sequence parser and the screen model it drives.
pub mod intmap;
pub mod control;
pub mod escape;
pub mod graphics;
pub mod modes;
pub mod textfmt;
pub mod charsets;
pub mod wcwidth;
pub mod screens;
pub mod screen_laws;
pub mod decode;
pub mod streams;
pub mod common;

use vstd::prelude::*;

verus! {

/// The lowercase hexadecimal digit of `d < 16`, as a byte.
pub open spec fn hex_byte(d: int) -> u8 {
    if d < 10 {
        (48 + d) as u8
    } else {
        (87 + d) as u8
    }
}

/// A byte as it stands in sanitized JSON: a control byte (below `0x20`)
/// becomes its `\u00XX` escape, any other byte stays.
pub open spec fn escaped_byte(b: u8) -> Seq<u8> {
    if b < 0x20 {
        seq![0x5Cu8, 0x75u8, 0x30u8, 0x30u8, hex_byte(b as int / 16), hex_byte(b as int % 16)]
    } else {
        seq![b]
    }
}

/// `bs` with every control byte escaped.
pub open spec fn sanitized(bs: Seq<u8>) -> Seq<u8>
    decreases bs.len(),
{
    if bs.len() == 0 {
        Seq::empty()
    } else {
        sanitized(bs.drop_last()) + escaped_byte(bs.last())
    }
}

/// Bytes that are not control bytes pass through sanitizing unchanged.
pub proof fn lemma_sanitize_keeps_plain(bs: Seq<u8>)
    requires
        forall|i: int| 0 <= i < bs.len() ==> #[trigger] bs[i] >= 0x20,
    ensures
        sanitized(bs) == bs,
    decreases bs.len(),
{
    if bs.len() > 0 {
        let p = bs.drop_last();
        assert forall|i: int| 0 <= i < p.len() implies #[trigger] p[i] >= 0x20 by {
            assert(p[i] == bs[i]);
        }
        lemma_sanitize_keeps_plain(p);
        assert(bs[bs.len() - 1] >= 0x20);
        assert(p + seq![bs.last()] =~= bs);
    }
}

/// Sanitized bytes hold no control byte.
pub proof fn lemma_sanitize_no_control(bs: Seq<u8>)
    ensures
        forall|i: int| 0 <= i < sanitized(bs).len() ==> #[trigger] sanitized(bs)[i] >= 0x20,
    decreases bs.len(),
{
    if bs.len() > 0 {
        let p = bs.drop_last();
        lemma_sanitize_no_control(p);
        let a = sanitized(p);
        let e = escaped_byte(bs.last());
        assert forall|i: int| 0 <= i < (a + e).len() implies #[trigger] (a + e)[i] >= 0x20 by {
            if i < a.len() {
                assert((a + e)[i] == a[i]);
            } else {
                assert((a + e)[i] == e[i - a.len()]);
            }
        }
    }
}

/// The number a lowercase hexadecimal digit byte stands for.
pub open spec fn hex_value(c: u8) -> int {
    if 0x30 <= c <= 0x39 {
        c - 0x30
    } else {
        c - 0x57
    }
}

/// The escape of a control byte reads back as that byte: `\u00` followed by
/// two hexadecimal digits whose value is the byte.
pub proof fn lemma_escape_lossless(b: u8)
    requires
        b < 0x20,
    ensures
        escaped_byte(b).len() == 6,
        escaped_byte(b).subrange(0, 4) == seq![0x5Cu8, 0x75u8, 0x30u8, 0x30u8],
        16 * hex_value(escaped_byte(b)[4]) + hex_value(escaped_byte(b)[5]) == b,
{
    let e = escaped_byte(b);
    assert(e.subrange(0, 4) =~= seq![0x5Cu8, 0x75u8, 0x30u8, 0x30u8]);
}

fn hex_byte_exec(d: u8) -> (r: u8)
    requires
        d < 16,
    ensures
        r == hex_byte(d as int),
{
    if d < 10 {
        48 + d
    } else {
        87 + d
    }
}

/// Escapes raw control bytes (below `0x20`) into their `\u00XX` JSON form.
///
/// Such bytes may only stand inside JSON strings, where they must be
/// escaped; rewriting each one restores exactly the character it meant,
/// and leaves structure, quoting, escapes already present and multibyte
/// UTF-8 (all of whose bytes are `0x80` or above) untouched.
pub fn sanitize_json_control_bytes(bytes: &[u8]) -> (out: Vec<u8>)
    ensures
        out@ == sanitized(bytes@),
{
    let mut out: Vec<u8> = Vec::new();
    let mut i: usize = 0;
    while i < bytes.len()
        invariant
            i <= bytes@.len(),
            out@ == sanitized(bytes@.subrange(0, i as int)),
        decreases bytes@.len() - i,
    {
        let b = bytes[i];
        let ghost before = out@;
        if b < 0x20 {
            out.push(0x5C);
            out.push(0x75);
            out.push(0x30);
            out.push(0x30);
            out.push(hex_byte_exec(b / 16));
            out.push(hex_byte_exec(b % 16));
        } else {
            out.push(b);
        }
        proof {
            let p = bytes@.subrange(0, i + 1);
            assert(p.drop_last() =~= bytes@.subrange(0, i as int));
            assert(p.last() == b);
            assert(out@ =~= before + escaped_byte(b));
        }
        i = i + 1;
    }
    assert(bytes@.subrange(0, bytes@.len() as int) =~= bytes@);
    out
}

} // verus!
