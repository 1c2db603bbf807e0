//! Names and settings of traces and dumps, and the numbers that dumps hold.

use vstd::prelude::*;
use vstd::arithmetic::power2::{lemma2_to64, lemma_pow2_adds, pow2};
use crate::config::HC_DIM;
use crate::scan::{find_char, part, parse_list};
use crate::scan;
use crate::text::{chars_of, parse_usize, push_padded, push_text, string_of};
use crate::text;

verus! {

/// The row of a trace that shows a device's work.
#[derive(Debug, Clone, Copy, PartialEq, Eq, Structural)]
pub enum Track {
    Compute,
    Transfer,
}

/// A text holds another.
pub open spec fn holds(s: Seq<char>, p: Seq<char>) -> bool {
    exists|i: int| 0 <= i <= s.len() - p.len() && #[trigger] s.subrange(i, i + p.len()) == p
}

/// Does `p` stand at place `i`?
fn stands_at(s: &Vec<char>, i: usize, p: &Vec<char>) -> (r: bool)
    requires
        i + p.len() <= s.len(),
    ensures
        r == (s@.subrange(i as int, i + p.len()) == p@),
{
    let mut j: usize = 0;
    while j < p.len()
        invariant
            j <= p.len(),
            i + p.len() <= s.len(),
            forall|k: int| 0 <= k < j ==> s@[i + k] == #[trigger] p@[k],
        decreases p.len() - j,
    {
        if s[i + j] != p[j] {
            assert(s@.subrange(i as int, i + p.len())[j as int] != p@[j as int]);
            return false;
        }
        j = j + 1;
    }
    assert(s@.subrange(i as int, i + p.len()) =~= p@);
    true
}

/// Does the text hold `pattern`?
fn contains(s: &Vec<char>, pattern: &str) -> (r: bool)
    ensures
        r == holds(s@, pattern@),
{
    let p = chars_of(pattern);
    if p.len() > s.len() {
        return false;
    }
    let last: usize = s.len() - p.len();
    let mut i: usize = 0;
    while i <= last
        invariant
            i <= last + 1,
            last == s.len() - p.len(),
            p@ == pattern@,
            forall|k: int| 0 <= k < i ==> #[trigger] s@.subrange(k, k + p@.len()) != p@,
        decreases last + 1 - i,
    {
        if stands_at(s, i, &p) {
            return true;
        }
        if i == last {
            return false;
        }
        i = i + 1;
    }
    false
}

/// The row of the trace that a stage belongs to.
pub fn track_of(stage: &str) -> (r: Track)
    ensures
        r == (if holds(stage@, ".xfer"@) || holds(stage@, ".peer_push"@) {
            Track::Transfer
        } else {
            Track::Compute
        }),
{
    let s = chars_of(stage);
    if contains(&s, ".xfer") || contains(&s, ".peer_push") {
        Track::Transfer
    } else {
        Track::Compute
    }
}

/// The file name of a layer's dumped value.
pub open spec fn dump_file(layer: nat, tag: Seq<char>) -> Seq<char> {
    "layer_"@ + text::padded(layer, 2) + "_"@ + tag + ".bin"@
}

/// The file name of a layer's dumped value.
pub fn dump_name(layer: usize, tag: &str) -> (r: String)
    ensures
        r@ == dump_file(layer as nat, tag@),
{
    let mut out = String::new();
    push_text(&mut out, "layer_");
    push_padded(&mut out, layer as u64, 2);
    push_text(&mut out, "_");
    push_text(&mut out, tag);
    push_text(&mut out, ".bin");
    assert(out@ =~= dump_file(layer as nat, tag@));
    out
}

/// The layer and the path of a `layer:path` setting. The path is all that follows
/// the first colon.
pub open spec fn residual_setting(s: Seq<char>) -> Option<(usize, Seq<char>)> {
    let e = scan::before_char(s, ':') as int;
    if e < s.len() {
        match text::parsed(s.take(e)) {
            Some(layer) => Some((layer, s.skip(e + 1))),
            None => None,
        }
    } else {
        None
    }
}

/// Reads the setting that replaces the residual behind a layer with a file's
/// contents.
pub fn substitute_residual_spec(setting: &str) -> (r: Option<(usize, String)>)
    ensures
        match r {
            Some(p) => residual_setting(setting@) == Some((p.0, p.1@)),
            None => residual_setting(setting@) is None,
        },
{
    let v = chars_of(setting);
    assert(v@.skip(0) =~= v@);
    let e = find_char(v.as_slice(), 0, ':');
    if e == v.len() {
        return None;
    }
    let head = part(v.as_slice(), 0, e);
    assert(head@ =~= v@.take(e as int));
    match parse_usize(head.as_slice()) {
        None => None,
        Some(layer) => {
            let tail = part(v.as_slice(), e + 1, v.len());
            assert(tail@ =~= v@.skip(e + 1));
            Some((layer, string_of(tail.as_slice())))
        },
    }
}

/// Bytes of a file that replaces the residual.
pub const RESIDUAL_BYTES: usize = 81920;

/// Is a file long enough to replace the residual, and no longer?
pub fn residual_file_fits(len: usize) -> (r: bool)
    ensures
        r == (len == 4 * HC_DIM),
{
    len == RESIDUAL_BYTES
}

/// The layers whose values are dumped: those of `layers`, or where it is unset
/// those of `layer`. `None` where neither names one.
pub fn subtensor_dump_spec(layers: Option<&str>, layer: Option<&str>) -> (r: Option<Vec<usize>>)
    ensures
        ({
            let list = match (layers, layer) {
                (Some(s), _) => scan::number_list(s@),
                (None, Some(s)) => scan::number_list(s@),
                (None, None) => Seq::empty(),
            };
            match r {
                Some(v) => v@ == list && list.len() > 0,
                None => list.len() == 0,
            }
        }),
{
    let list = match layers {
        Some(s) => parse_list(s),
        None => match layer {
            Some(s) => parse_list(s),
            None => Vec::new(),
        },
    };
    if list.len() == 0 {
        None
    } else {
        Some(list)
    }
}

/// The parts of a 16-bit float.
pub open spec fn f16_sign(bits: u16) -> int {
    bits as int / 32768
}

pub open spec fn f16_exp(bits: u16) -> int {
    bits as int / 1024 % 32
}

pub open spec fn f16_mant(bits: u16) -> int {
    bits as int % 1024
}

/// The parts of a 32-bit float.
pub open spec fn f32_sign(bits: u32) -> int {
    bits as int / 0x8000_0000
}

pub open spec fn f32_exp(bits: u32) -> int {
    bits as int / 0x80_0000 % 256
}

pub open spec fn f32_mant(bits: u32) -> int {
    bits as int % 0x80_0000
}

/// The magnitude of a finite 16-bit float, in units of the smallest 32-bit one.
pub open spec fn f16_magnitude(bits: u16) -> int {
    if f16_exp(bits) == 0 {
        f16_mant(bits) * pow2(125)
    } else {
        (1024 + f16_mant(bits)) * pow2((f16_exp(bits) + 124) as nat)
    }
}

/// The magnitude of a finite 32-bit float, in units of the smallest.
pub open spec fn f32_magnitude(bits: u32) -> int {
    if f32_exp(bits) == 0 {
        f32_mant(bits)
    } else {
        (0x80_0000 + f32_mant(bits)) * pow2((f32_exp(bits) - 1) as nat)
    }
}

/// The place of the highest bit of a number below 1024.
fn top_bit(m: u32) -> (p: u32)
    requires
        0 < m < 1024,
    ensures
        p < 10,
        pow2(p as nat) <= m < pow2((p + 1) as nat),
{
    proof {
        lemma2_to64();
    }
    if m >= 512 {
        9
    } else if m >= 256 {
        8
    } else if m >= 128 {
        7
    } else if m >= 64 {
        6
    } else if m >= 32 {
        5
    } else if m >= 16 {
        4
    } else if m >= 8 {
        3
    } else if m >= 4 {
        2
    } else if m >= 2 {
        1
    } else {
        0
    }
}

/// A power of two that fits a mantissa.
fn power(n: u32) -> (r: u32)
    requires
        n <= 23,
    ensures
        r == pow2(n as nat),
    decreases n,
{
    proof {
        lemma2_to64();
    }
    if n == 0 {
        1
    } else {
        let half = power(n - 1);
        proof {
            lemma_pow2_adds(1, (n - 1) as nat);
            vstd::arithmetic::power2::lemma_pow2_strictly_increases((n - 1) as nat, 23);
        }
        2 * half
    }
}

/// Widens a 16-bit float to the bits of a 32-bit one of the same value. An
/// infinity stays one, and what is no number keeps its mantissa in the higher
/// bits.
pub fn f16_bits_to_f32(bits: u16) -> (r: u32)
    ensures
        f32_sign(r) == f16_sign(bits),
        f16_exp(bits) < 31 ==> f32_exp(r) < 255 && f32_magnitude(r) == f16_magnitude(bits),
        f16_exp(bits) == 31 ==> f32_exp(r) == 255 && f32_mant(r) == f16_mant(bits) * 8192,
{
    let sign: u32 = bits as u32 / 32768;
    let exp: u32 = bits as u32 / 1024 % 32;
    let mant: u32 = bits as u32 % 1024;
    let high: u32 = sign * 0x8000_0000;
    if exp == 31 {
        return high + 0x7f80_0000 + mant * 8192;
    }
    if exp > 0 {
        let r: u32 = high + (exp + 112) * 0x80_0000 + mant * 8192;
        proof {
            lemma_pow2_adds(13, (exp + 111) as nat);
            lemma2_to64();
            assert(r as int / 0x80_0000 % 256 == exp + 112);
            assert(r as int % 0x80_0000 == mant * 8192);
            let e = pow2((exp + 111) as nat) as int;
            let full = pow2((exp + 124) as nat) as int;
            assert((0x80_0000 + mant * 8192) * e == (1024 + mant) * full) by (nonlinear_arith)
                requires
                    full == 8192 * e,
            ;
        }
        return r;
    }
    if mant == 0 {
        proof {
            assert(0 * pow2(125) == 0) by (nonlinear_arith);
        }
        return high;
    }
    let p = top_bit(mant);
    let scale = power(23 - p);
    proof {
        lemma2_to64();
        lemma_pow2_adds(p as nat, (23 - p) as nat);
        lemma_pow2_adds((p + 1) as nat, (23 - p) as nat);
        let lo = pow2(p as nat) as int;
        let hi = pow2((p + 1) as nat) as int;
        assert(0x80_0000 <= mant * scale < 0x100_0000) by (nonlinear_arith)
            requires
                lo * scale == 0x80_0000,
                hi * scale == 0x100_0000,
                lo <= mant < hi,
                scale > 0,
        ;
    }
    let shifted: u32 = mant * scale;
    let r: u32 = high + (p + 103) * 0x80_0000 + (shifted - 0x80_0000);
    proof {
        assert(r as int / 0x80_0000 % 256 == p + 103);
        assert(r as int % 0x80_0000 == shifted - 0x80_0000);
        lemma_pow2_adds((23 - p) as nat, (p + 102) as nat);
        let e = pow2((p + 102) as nat) as int;
        let full = pow2(125) as int;
        assert(shifted * e == mant * full) by (nonlinear_arith)
            requires
                shifted == mant * scale,
                full == scale * e,
        ;
    }
    r
}

} // verus!
