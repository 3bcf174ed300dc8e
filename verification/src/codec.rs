//! The binary codec shared by snapshots, sync messages and the presence
//! protocol.
//!
//! Every value is written in a fixed little-endian format: integers as
//! their low-to-high bytes, options behind a one-byte tag, text as a
//! character count followed by one 32-bit scalar per character.  For each
//! spec-level encoder `enc_*` there is a spec-level decoder `sd_*`; the
//! executable writers and readers are proved to match them, and the
//! round-trip lemmas show that decoding an encoding yields the value that
//! was written, wherever it sits in a larger buffer.

use vstd::prelude::*;

use crate::canvas::{LineStyle, Position};
use crate::shapes::ShapeColor;
use vstd::string::StrSliceExecFns;
use vstd::utf8::is_scalar;

verus! {

broadcast use vstd::utf8::char_is_scalar, vstd::utf8::char_u32_cast;

/// 256 to the `n`.
pub open spec fn pow256(n: nat) -> int
    decreases n,
{
    if n == 0 {
        1
    } else {
        256 * pow256((n - 1) as nat)
    }
}

/// The low `n` little-endian bytes of a non-negative integer.
pub open spec fn le_bytes(v: int, n: nat) -> Seq<u8>
    decreases n,
{
    if n == 0 {
        Seq::empty()
    } else {
        seq![(v % 256) as u8] + le_bytes(v / 256, (n - 1) as nat)
    }
}

/// The value a little-endian byte sequence denotes.
pub open spec fn le_val(s: Seq<u8>) -> int
    decreases s.len(),
{
    if s.len() == 0 {
        0
    } else {
        s[0] + 256 * le_val(s.drop_first())
    }
}

pub proof fn lemma_le_bytes_len(v: int, n: nat)
    ensures
        le_bytes(v, n).len() == n,
    decreases n,
{
    if n > 0 {
        lemma_le_bytes_len(v / 256, (n - 1) as nat);
    }
}

pub proof fn lemma_pow256_pos(n: nat)
    ensures
        pow256(n) >= 1,
    decreases n,
{
    if n > 0 {
        lemma_pow256_pos((n - 1) as nat);
    }
}

pub proof fn lemma_pow256_mono(a: nat, b: nat)
    requires
        a <= b,
    ensures
        pow256(a) <= pow256(b),
    decreases b,
{
    if a < b {
        lemma_pow256_mono(a, (b - 1) as nat);
        lemma_pow256_pos((b - 1) as nat);
    }
}

/// Sixteen bytes express every `u128`.
pub proof fn lemma_pow256_16()
    ensures
        pow256(16) == 0x1_0000_0000_0000_0000_0000_0000_0000_0000,
{
    reveal_with_fuel(pow256, 17);
}

/// Bound on the denoted value.
pub proof fn lemma_le_val_bound(s: Seq<u8>)
    ensures
        0 <= le_val(s) < pow256(s.len()),
    decreases s.len(),
{
    if s.len() == 0 {
    } else {
        lemma_le_val_bound(s.drop_first());
    }
}

/// Writing then reading gives the value back.
pub proof fn lemma_le_roundtrip(v: int, n: nat)
    requires
        0 <= v < pow256(n),
    ensures
        le_val(le_bytes(v, n)) == v,
    decreases n,
{
    if n == 0 {
    } else {
        lemma_le_bytes_len(v / 256, (n - 1) as nat);
        assert(le_bytes(v, n).drop_first() =~= le_bytes(v / 256, (n - 1) as nat));
        lemma_le_roundtrip(v / 256, (n - 1) as nat);
        assert(v == 256 * (v / 256) + v % 256) by {
            vstd::arithmetic::div_mod::lemma_fundamental_div_mod(v, 256);
        }
    }
}

/// One more low byte extends the byte string by the next digit.
pub proof fn lemma_le_bytes_snoc(v: int, n: nat)
    requires
        v >= 0,
    ensures
        le_bytes(v, n + 1) == le_bytes(v, n).push(((v / pow256(n)) % 256) as u8),
    decreases n,
{
    lemma_le_bytes_len(v, n);
    lemma_le_bytes_len(v, n + 1);
    if n == 0 {
        assert(le_bytes(v, 1) =~= Seq::empty().push((v % 256) as u8));
    } else {
        lemma_le_bytes_snoc(v / 256, (n - 1) as nat);
        assert((v / 256) / pow256((n - 1) as nat) == v / pow256(n)) by {
            lemma_pow256_pos((n - 1) as nat);
            vstd::arithmetic::div_mod::lemma_div_denominator(v, 256, pow256((n - 1) as nat));
        }
        assert(le_bytes(v, n + 1) =~= le_bytes(v, n).push(((v / pow256(n)) % 256) as u8));
    }
}

/// Append the low `n` little-endian bytes of `v`.
pub fn push_le(out: &mut Vec<u8>, v: u128, n: usize)
    requires
        n <= 16,
        (v as int) < pow256(n as nat),
    ensures
        final(out)@ == old(out)@ + le_bytes(v as int, n as nat),
{
    let ghost base = out@;
    let mut cur: u128 = v;
    let mut i: usize = 0;
    proof {
        assert(out@ =~= base + le_bytes(v as int, 0));
        assert(pow256(0) == 1);
    }
    while i < n
        invariant
            i <= n,
            n <= 16,
            (v as int) < pow256(n as nat),
            cur == (v as int) / pow256(i as nat),
            out@ == base + le_bytes(v as int, i as nat),
        decreases n - i,
    {
        let b: u8 = (cur % 256) as u8;
        out.push(b);
        proof {
            lemma_le_bytes_snoc(v as int, i as nat);
            assert((v as int) / pow256(i as nat) % 256 == cur % 256);
            assert(out@ =~= base + le_bytes(v as int, (i + 1) as nat));
            assert((v as int) / pow256((i + 1) as nat) == cur as int / 256) by {
                lemma_pow256_pos(i as nat);
                vstd::arithmetic::div_mod::lemma_div_denominator(
                    v as int,
                    pow256(i as nat),
                    256,
                );
            }
        }
        cur = cur / 256;
        i = i + 1;
    }
}

/// Spec-level fixed-width integer parse: the value of the next `n` bytes.
pub open spec fn sd_le(b: Seq<u8>, p: int, n: nat) -> Option<(int, int)> {
    if 0 <= p && p + n <= b.len() {
        Some((le_val(b.subrange(p, p + n)), p + n))
    } else {
        None
    }
}

/// Read `n` little-endian bytes at `pos`.
pub fn read_le(buf: &Vec<u8>, pos: usize, n: usize) -> (r: Option<(u128, usize)>)
    requires
        n <= 16,
    ensures
        match r {
            Some((v, np)) => sd_le(buf@, pos as int, n as nat) == Some((v as int, np as int)),
            None => sd_le(buf@, pos as int, n as nat) is None,
        },
{
    let len = buf.len();
    if n > len || pos > len - n {
        return None;
    }
    let mut acc: u128 = 0;
    let mut j: usize = 0;
    let ghost whole = buf@.subrange(pos as int, pos + n);
    proof {
        assert(whole.subrange(n as int, n as int) =~= Seq::<u8>::empty());
        lemma_le_val_bound(whole);
    }
    while j < n
        invariant
            j <= n,
            n <= 16,
            pos + n <= len,
            len == buf@.len(),
            whole == buf@.subrange(pos as int, pos + n),
            acc == le_val(whole.subrange(n - j, n as int)),
            acc < pow256(j as nat),
        decreases n - j,
    {
        let b: u8 = buf[pos + n - 1 - j];
        proof {
            let tail = whole.subrange(n - j, n as int);
            let ext = whole.subrange(n - j - 1, n as int);
            assert(ext.drop_first() =~= tail);
            assert(ext[0] == whole[n - j - 1]);
            assert(whole[n - j - 1] == buf@[pos + n - 1 - j]);
            lemma_le_val_bound(ext);
            lemma_pow256_pos(j as nat);
            lemma_pow256_mono((j + 1) as nat, 16);
            lemma_pow256_16();
            assert(acc * 256 + b < pow256((j + 1) as nat));
        }
        acc = acc * 256 + (b as u128);
        j = j + 1;
    }
    proof {
        assert(whole.subrange(0, n as int) =~= whole);
    }
    Some((acc, pos + n))
}

/// The small powers of 256 that the fixed-width readers use.
pub proof fn lemma_pow256_small()
    ensures
        pow256(1) == 0x100,
        pow256(4) == 0x1_0000_0000,
        pow256(8) == 0x1_0000_0000_0000_0000,
{
    reveal_with_fuel(pow256, 9);
}

/// A fixed-width little-endian parse succeeds on its own encoding.
pub proof fn lemma_sd_le(b: Seq<u8>, p: int, v: int, n: nat)
    requires
        0 <= v < pow256(n),
        0 <= p,
        p + n <= b.len(),
        b.subrange(p, p + n) == le_bytes(v, n),
    ensures
        sd_le(b, p, n) == Some((v, p + n)),
{
    lemma_le_roundtrip(v, n);
}

// --- unsigned and signed integers ---

pub open spec fn enc_u32(v: u32) -> Seq<u8> {
    le_bytes(v as int, 4)
}

pub open spec fn sd_u32(b: Seq<u8>, p: int) -> Option<(u32, int)> {
    match sd_le(b, p, 4) {
        Some((v, np)) => Some((v as u32, np)),
        None => None,
    }
}

pub fn push_u32(out: &mut Vec<u8>, v: u32)
    ensures
        final(out)@ == old(out)@ + enc_u32(v),
{
    proof {
        lemma_pow256_small();
    }
    push_le(out, v as u128, 4);
}

pub fn read_u32(buf: &Vec<u8>, pos: usize) -> (r: Option<(u32, usize)>)
    ensures
        match r {
            Some((v, np)) => sd_u32(buf@, pos as int) == Some((v, np as int)),
            None => sd_u32(buf@, pos as int) is None,
        },
{
    proof {
        lemma_pow256_small();
        if pos + 4 <= buf@.len() {
            lemma_le_val_bound(buf@.subrange(pos as int, pos + 4));
        }
    }
    match read_le(buf, pos, 4) {
        Some((v, np)) => Some((v as u32, np)),
        None => None,
    }
}

pub open spec fn enc_u64(v: u64) -> Seq<u8> {
    le_bytes(v as int, 8)
}

pub open spec fn sd_u64(b: Seq<u8>, p: int) -> Option<(u64, int)> {
    match sd_le(b, p, 8) {
        Some((v, np)) => Some((v as u64, np)),
        None => None,
    }
}

pub fn push_u64(out: &mut Vec<u8>, v: u64)
    ensures
        final(out)@ == old(out)@ + enc_u64(v),
{
    proof {
        lemma_pow256_small();
    }
    push_le(out, v as u128, 8);
}

pub fn read_u64(buf: &Vec<u8>, pos: usize) -> (r: Option<(u64, usize)>)
    ensures
        match r {
            Some((v, np)) => sd_u64(buf@, pos as int) == Some((v, np as int)),
            None => sd_u64(buf@, pos as int) is None,
        },
{
    proof {
        lemma_pow256_small();
        if pos + 8 <= buf@.len() {
            lemma_le_val_bound(buf@.subrange(pos as int, pos + 8));
        }
    }
    match read_le(buf, pos, 8) {
        Some((v, np)) => Some((v as u64, np)),
        None => None,
    }
}

pub open spec fn enc_u128(v: u128) -> Seq<u8> {
    le_bytes(v as int, 16)
}

pub open spec fn sd_u128(b: Seq<u8>, p: int) -> Option<(u128, int)> {
    match sd_le(b, p, 16) {
        Some((v, np)) => Some((v as u128, np)),
        None => None,
    }
}

pub fn push_u128(out: &mut Vec<u8>, v: u128)
    ensures
        final(out)@ == old(out)@ + enc_u128(v),
{
    proof {
        lemma_pow256_16();
    }
    push_le(out, v, 16);
}

pub fn read_u128(buf: &Vec<u8>, pos: usize) -> (r: Option<(u128, usize)>)
    ensures
        match r {
            Some((v, np)) => sd_u128(buf@, pos as int) == Some((v, np as int)),
            None => sd_u128(buf@, pos as int) is None,
        },
{
    proof {
        lemma_pow256_16();
        if pos + 16 <= buf@.len() {
            lemma_le_val_bound(buf@.subrange(pos as int, pos + 16));
        }
    }
    match read_le(buf, pos, 16) {
        Some((v, np)) => Some((v, np)),
        None => None,
    }
}

pub open spec fn enc_i32(v: i32) -> Seq<u8> {
    enc_u32(v as u32)
}

pub open spec fn sd_i32(b: Seq<u8>, p: int) -> Option<(i32, int)> {
    match sd_u32(b, p) {
        Some((v, np)) => Some((v as i32, np)),
        None => None,
    }
}

pub fn push_i32(out: &mut Vec<u8>, v: i32)
    ensures
        final(out)@ == old(out)@ + enc_i32(v),
{
    push_u32(out, v as u32);
}

pub fn read_i32(buf: &Vec<u8>, pos: usize) -> (r: Option<(i32, usize)>)
    ensures
        match r {
            Some((v, np)) => sd_i32(buf@, pos as int) == Some((v, np as int)),
            None => sd_i32(buf@, pos as int) is None,
        },
{
    match read_u32(buf, pos) {
        Some((v, np)) => Some((v as i32, np)),
        None => None,
    }
}

pub open spec fn enc_i64(v: i64) -> Seq<u8> {
    enc_u64(v as u64)
}

pub open spec fn sd_i64(b: Seq<u8>, p: int) -> Option<(i64, int)> {
    match sd_u64(b, p) {
        Some((v, np)) => Some((v as i64, np)),
        None => None,
    }
}

pub fn push_i64(out: &mut Vec<u8>, v: i64)
    ensures
        final(out)@ == old(out)@ + enc_i64(v),
{
    push_u64(out, v as u64);
}

pub fn read_i64(buf: &Vec<u8>, pos: usize) -> (r: Option<(i64, usize)>)
    ensures
        match r {
            Some((v, np)) => sd_i64(buf@, pos as int) == Some((v, np as int)),
            None => sd_i64(buf@, pos as int) is None,
        },
{
    match read_u64(buf, pos) {
        Some((v, np)) => Some((v as i64, np)),
        None => None,
    }
}

/// A signed 32-bit round trip through its unsigned two's-complement image.
pub proof fn lemma_i32_roundtrip(v: i32)
    ensures
        ((v as u32) as i32) == v,
{
    assert(((v as u32) as i32) == v) by (bit_vector);
}

/// A signed 64-bit round trip through its unsigned two's-complement image.
pub proof fn lemma_i64_roundtrip(v: i64)
    ensures
        ((v as u64) as i64) == v,
{
    assert(((v as u64) as i64) == v) by (bit_vector);
}

// --- booleans and characters ---

pub open spec fn enc_bool(v: bool) -> Seq<u8> {
    if v {
        seq![1u8]
    } else {
        seq![0u8]
    }
}

pub open spec fn sd_bool(b: Seq<u8>, p: int) -> Option<(bool, int)> {
    if 0 <= p && p + 1 <= b.len() {
        if b[p] == 0 {
            Some((false, p + 1))
        } else if b[p] == 1 {
            Some((true, p + 1))
        } else {
            None
        }
    } else {
        None
    }
}

pub fn push_bool(out: &mut Vec<u8>, v: bool)
    ensures
        final(out)@ == old(out)@ + enc_bool(v),
{
    out.push(if v { 1 } else { 0 });
    proof {
        assert(out@ =~= old(out)@ + enc_bool(v));
    }
}

pub fn read_bool(buf: &Vec<u8>, pos: usize) -> (r: Option<(bool, usize)>)
    ensures
        match r {
            Some((v, np)) => sd_bool(buf@, pos as int) == Some((v, np as int)),
            None => sd_bool(buf@, pos as int) is None,
        },
{
    if pos >= buf.len() {
        return None;
    }
    let b = buf[pos];
    if b == 0 {
        Some((false, pos + 1))
    } else if b == 1 {
        Some((true, pos + 1))
    } else {
        None
    }
}

pub open spec fn enc_char(c: char) -> Seq<u8> {
    enc_u32(c as u32)
}

pub open spec fn sd_char(b: Seq<u8>, p: int) -> Option<(char, int)> {
    match sd_u32(b, p) {
        Some((v, np)) => if is_scalar(v) {
            Some((v as char, np))
        } else {
            None
        },
        None => None,
    }
}

/// Relies on char::from_u32: `Some` exactly for Unicode scalar values,
/// holding the character with that value.
#[verifier::external_body]
fn char_from_u32(v: u32) -> (r: Option<char>)
    ensures
        match r {
            Some(c) => is_scalar(v) && c as u32 == v,
            None => !is_scalar(v),
        },
{
    char::from_u32(v)
}

pub fn push_char(out: &mut Vec<u8>, c: char)
    ensures
        final(out)@ == old(out)@ + enc_char(c),
{
    push_u32(out, c as u32);
}

pub fn read_char(buf: &Vec<u8>, pos: usize) -> (r: Option<(char, usize)>)
    ensures
        match r {
            Some((c, np)) => sd_char(buf@, pos as int) == Some((c, np as int)),
            None => sd_char(buf@, pos as int) is None,
        },
{
    match read_u32(buf, pos) {
        Some((v, np)) => match char_from_u32(v) {
            Some(c) => {
                proof {
                    vstd::utf8::char_u32_cast(c, v);
                }
                Some((c, np))
            },
            None => None,
        },
        None => None,
    }
}

// --- relocatable round trips for the scalar encoders ---

pub proof fn lemma_sd_u32(b: Seq<u8>, p: int, v: u32)
    requires
        0 <= p,
        p + 4 <= b.len(),
        b.subrange(p, p + 4) == enc_u32(v),
    ensures
        sd_u32(b, p) == Some((v, p + 4)),
{
    lemma_pow256_small();
    lemma_sd_le(b, p, v as int, 4);
}

pub proof fn lemma_sd_u64(b: Seq<u8>, p: int, v: u64)
    requires
        0 <= p,
        p + 8 <= b.len(),
        b.subrange(p, p + 8) == enc_u64(v),
    ensures
        sd_u64(b, p) == Some((v, p + 8)),
{
    lemma_pow256_small();
    lemma_sd_le(b, p, v as int, 8);
}

pub proof fn lemma_sd_u128(b: Seq<u8>, p: int, v: u128)
    requires
        0 <= p,
        p + 16 <= b.len(),
        b.subrange(p, p + 16) == enc_u128(v),
    ensures
        sd_u128(b, p) == Some((v, p + 16)),
{
    lemma_pow256_16();
    lemma_sd_le(b, p, v as int, 16);
}

pub proof fn lemma_sd_i32(b: Seq<u8>, p: int, v: i32)
    requires
        0 <= p,
        p + 4 <= b.len(),
        b.subrange(p, p + 4) == enc_i32(v),
    ensures
        sd_i32(b, p) == Some((v, p + 4)),
{
    lemma_sd_u32(b, p, v as u32);
    lemma_i32_roundtrip(v);
}

pub proof fn lemma_sd_i64(b: Seq<u8>, p: int, v: i64)
    requires
        0 <= p,
        p + 8 <= b.len(),
        b.subrange(p, p + 8) == enc_i64(v),
    ensures
        sd_i64(b, p) == Some((v, p + 8)),
{
    lemma_sd_u64(b, p, v as u64);
    lemma_i64_roundtrip(v);
}

pub proof fn lemma_sd_bool(b: Seq<u8>, p: int, v: bool)
    requires
        0 <= p,
        p + 1 <= b.len(),
        b.subrange(p, p + 1) == enc_bool(v),
    ensures
        sd_bool(b, p) == Some((v, p + 1)),
{
    assert(b[p] == enc_bool(v)[0]);
}

pub proof fn lemma_sd_char(b: Seq<u8>, p: int, c: char)
    requires
        0 <= p,
        p + 4 <= b.len(),
        b.subrange(p, p + 4) == enc_char(c),
    ensures
        sd_char(b, p) == Some((c, p + 4)),
{
    lemma_sd_u32(b, p, c as u32);
}

// --- text: a character count and one scalar per character ---

/// The encoded characters of a text, in order.
pub open spec fn enc_chars(s: Seq<char>) -> Seq<u8>
    decreases s.len(),
{
    if s.len() == 0 {
        Seq::empty()
    } else {
        enc_chars(s.drop_last()) + enc_char(s.last())
    }
}

/// The encoding of a text: its length and its characters.
pub open spec fn enc_text(s: Seq<char>) -> Seq<u8> {
    le_bytes(s.len() as int, 8) + enc_chars(s)
}

pub proof fn lemma_enc_chars_len(s: Seq<char>)
    ensures
        enc_chars(s).len() == 4 * s.len(),
    decreases s.len(),
{
    if s.len() > 0 {
        lemma_enc_chars_len(s.drop_last());
        lemma_le_bytes_len(s.last() as u32 as int, 4);
    }
}

/// The character encoding can also be peeled from the front.
pub proof fn lemma_enc_chars_first(s: Seq<char>)
    requires
        s.len() > 0,
    ensures
        enc_chars(s) == enc_char(s[0]) + enc_chars(s.drop_first()),
    decreases s.len(),
{
    if s.len() == 1 {
        assert(s.drop_last() =~= Seq::<char>::empty());
        assert(s.drop_first() =~= Seq::<char>::empty());
        assert(enc_chars(s) =~= enc_char(s[0]) + enc_chars(s.drop_first()));
    } else {
        lemma_enc_chars_first(s.drop_last());
        assert(s.drop_last()[0] == s[0]);
        assert(s.drop_last().drop_first() =~= s.drop_first().drop_last());
        assert(s.drop_first().last() == s.last());
        assert(enc_chars(s) =~= enc_char(s[0]) + enc_chars(s.drop_first()));
    }
}

/// Spec-level parse of `n` characters.
pub open spec fn sd_chars(b: Seq<u8>, p: int, n: nat) -> Option<(Seq<char>, int)>
    decreases n,
{
    if n == 0 {
        if 0 <= p <= b.len() {
            Some((Seq::empty(), p))
        } else {
            None
        }
    } else {
        match sd_char(b, p) {
            Some((c, p1)) => match sd_chars(b, p1, (n - 1) as nat) {
                Some((s, p2)) => Some((seq![c] + s, p2)),
                None => None,
            },
            None => None,
        }
    }
}

/// Spec-level parse of a text.
pub open spec fn sd_text(b: Seq<u8>, p: int) -> Option<(Seq<char>, int)> {
    match sd_u64(b, p) {
        Some((n, p1)) => sd_chars(b, p1, n as nat),
        None => None,
    }
}

/// Parsing `n` characters out of their own encoding gives them back.
pub proof fn lemma_sd_chars(b: Seq<u8>, p: int, s: Seq<char>)
    requires
        0 <= p,
        p + 4 * s.len() <= b.len(),
        b.subrange(p, p + 4 * s.len()) == enc_chars(s),
    ensures
        sd_chars(b, p, s.len()) == Some((s, p + 4 * s.len())),
    decreases s.len(),
{
    if s.len() == 0 {
    } else {
        lemma_enc_chars_first(s);
        lemma_enc_chars_len(s);
        lemma_enc_chars_len(s.drop_first());
        lemma_le_bytes_len(s[0] as u32 as int, 4);
        let whole = b.subrange(p, p + 4 * s.len());
        let head = enc_char(s[0]);
        let tail = enc_chars(s.drop_first());
        assert(whole == head + tail);
        assert(b.subrange(p, p + 4) =~= head) by {
            assert forall|j: int| 0 <= j < 4 implies b.subrange(p, p + 4)[j] == head[j] by {
                assert(whole[j] == (head + tail)[j]);
            }
        }
        lemma_sd_char(b, p, s[0]);
        assert(b.subrange(p + 4, p + 4 * s.len()) =~= tail) by {
            assert forall|j: int| 0 <= j < 4 * s.len() - 4 implies b.subrange(
                p + 4,
                p + 4 * s.len(),
            )[j] == tail[j] by {
                assert(whole[4 + j] == (head + tail)[4 + j]);
                assert(b.subrange(p + 4, p + 4 * s.len())[j] == b[p + 4 + j]);
                assert(whole[4 + j] == b[p + 4 + j]);
            }
        }
        lemma_sd_chars(b, p + 4, s.drop_first());
        assert(seq![s[0]] + s.drop_first() =~= s);
    }
}

/// Parsing a text out of its own encoding gives it back.
pub proof fn lemma_sd_text(b: Seq<u8>, p: int, s: Seq<char>)
    requires
        0 <= p,
        s.len() < 0x1_0000_0000_0000_0000,
        p + enc_text(s).len() <= b.len(),
        b.subrange(p, p + enc_text(s).len()) == enc_text(s),
    ensures
        sd_text(b, p) == Some((s, p + enc_text(s).len())),
{
    lemma_le_bytes_len(s.len() as int, 8);
    lemma_enc_chars_len(s);
    let whole = b.subrange(p, p + enc_text(s).len());
    let head = le_bytes(s.len() as int, 8);
    let tail = enc_chars(s);
    assert(whole == head + tail);
    assert(b.subrange(p, p + 8) =~= head) by {
        assert forall|j: int| 0 <= j < 8 implies b.subrange(p, p + 8)[j] == head[j] by {
            assert(whole[j] == (head + tail)[j]);
        }
    }
    assert(b.subrange(p, p + 8) =~= enc_u64(s.len() as u64));
    lemma_sd_u64(b, p, s.len() as u64);
    assert(b.subrange(p + 8, p + 8 + 4 * s.len()) =~= tail) by {
        assert forall|j: int| 0 <= j < 4 * s.len() implies b.subrange(
            p + 8,
            p + 8 + 4 * s.len(),
        )[j] == tail[j] by {
            assert(whole[8 + j] == (head + tail)[8 + j]);
            assert(b.subrange(p + 8, p + 8 + 4 * s.len())[j] == b[p + 8 + j]);
            assert(whole[8 + j] == b[p + 8 + j]);
        }
    }
    lemma_sd_chars(b, p + 8, s);
}

/// Relies on String::push: appends one character.
#[verifier::external_body]
fn string_push(s: &mut String, c: char)
    ensures
        final(s)@ == old(s)@.push(c),
{
    s.push(c);
}

/// Append the encoding of a text.
pub fn write_text(out: &mut Vec<u8>, s: &str)
    ensures
        final(out)@ == old(out)@ + enc_text(s@),
{
    let ghost base = out@;
    let n = s.unicode_len();
    push_u64(out, n as u64);
    let mut i: usize = 0;
    proof {
        assert(s@.subrange(0, 0) =~= Seq::<char>::empty());
        assert(out@ =~= base + le_bytes(s@.len() as int, 8) + enc_chars(s@.subrange(0, 0)));
    }
    while i < n
        invariant
            i <= n,
            n == s@.len(),
            out@ == base + le_bytes(s@.len() as int, 8) + enc_chars(s@.subrange(0, i as int)),
        decreases n - i,
    {
        let c = s.get_char(i);
        push_char(out, c);
        proof {
            let pre = s@.subrange(0, i as int);
            let ext = s@.subrange(0, i + 1);
            assert(ext.drop_last() =~= pre);
            assert(ext.last() == c);
            assert(out@ =~= base + le_bytes(s@.len() as int, 8) + enc_chars(ext));
        }
        i = i + 1;
    }
    proof {
        assert(s@.subrange(0, s@.len() as int) =~= s@);
    }
}

/// Read a text.
pub fn read_text(buf: &Vec<u8>, pos: usize) -> (r: Option<(String, usize)>)
    ensures
        match r {
            Some((s, np)) => sd_text(buf@, pos as int) == Some((s@, np as int)),
            None => sd_text(buf@, pos as int) is None,
        },
{
    let (n, start) = match read_u64(buf, pos) {
        Some(x) => x,
        None => {
            return None;
        },
    };
    let mut s = String::new();
    let mut p: usize = start;
    let mut i: u64 = 0;
    proof {
        assert(seq![] + Seq::<char>::empty() =~= Seq::<char>::empty());
    }
    while i < n
        invariant
            i <= n,
            p <= buf@.len(),
            sd_u64(buf@, pos as int) == Some((n, start as int)),
            sd_chars(buf@, start as int, n as nat) == (match sd_chars(
                buf@,
                p as int,
                (n - i) as nat,
            ) {
                Some((t, q)) => Some((s@ + t, q)),
                None => None::<(Seq<char>, int)>,
            }),
        decreases n - i,
    {
        let ghost pre = s@;
        match read_char(buf, p) {
            Some((c, np)) => {
                string_push(&mut s, c);
                proof {
                    assert forall|t: Seq<char>| pre + (seq![c] + t) =~= s@ + t by {}
                }
                p = np;
            },
            None => {
                proof {
                    assert((n - i) as nat != 0);
                    assert(sd_chars(buf@, p as int, (n - i) as nat) is None);
                }
                return None;
            },
        }
        i = i + 1;
    }
    proof {
        assert(s@ + Seq::<char>::empty() =~= s@);
    }
    Some((s, p))
}

// --- options ---

pub open spec fn enc_opt_text(l: Option<Seq<char>>) -> Seq<u8> {
    match l {
        None => seq![0u8],
        Some(s) => seq![1u8] + enc_text(s),
    }
}

pub open spec fn sd_opt_text(b: Seq<u8>, p: int) -> Option<(Option<Seq<char>>, int)> {
    match sd_bool(b, p) {
        Some((false, p1)) => Some((None, p1)),
        Some((true, p1)) => match sd_text(b, p1) {
            Some((s, p2)) => Some((Some(s), p2)),
            None => None,
        },
        None => None,
    }
}

pub open spec fn enc_opt_u128(o: Option<u128>) -> Seq<u8> {
    match o {
        None => seq![0u8],
        Some(v) => seq![1u8] + enc_u128(v),
    }
}

pub open spec fn sd_opt_u128(b: Seq<u8>, p: int) -> Option<(Option<u128>, int)> {
    match sd_bool(b, p) {
        Some((false, p1)) => Some((None, p1)),
        Some((true, p1)) => match sd_u128(b, p1) {
            Some((v, p2)) => Some((Some(v), p2)),
            None => None,
        },
        None => None,
    }
}

pub fn write_opt_text(out: &mut Vec<u8>, l: &Option<String>)
    ensures
        final(out)@ == old(out)@ + enc_opt_text(crate::shapes::opt_text(*l)),
{
    match l {
        None => {
            push_bool(out, false);
            proof {
                assert(old(out)@ + enc_bool(false) =~= old(out)@ + enc_opt_text(None));
            }
        },
        Some(s) => {
            let ghost base = out@;
            push_bool(out, true);
            write_text(out, s.as_str());
            proof {
                assert(out@ =~= base + enc_opt_text(Some(s@)));
            }
        },
    }
}

pub fn read_opt_text(buf: &Vec<u8>, pos: usize) -> (r: Option<(Option<String>, usize)>)
    ensures
        match r {
            Some((l, np)) => sd_opt_text(buf@, pos as int) == Some((
                crate::shapes::opt_text(l),
                np as int,
            )),
            None => sd_opt_text(buf@, pos as int) is None,
        },
{
    match read_bool(buf, pos) {
        Some((false, p1)) => Some((None, p1)),
        Some((true, p1)) => match read_text(buf, p1) {
            Some((s, p2)) => Some((Some(s), p2)),
            None => None,
        },
        None => None,
    }
}

pub fn write_opt_u128(out: &mut Vec<u8>, o: &Option<u128>)
    ensures
        final(out)@ == old(out)@ + enc_opt_u128(*o),
{
    match o {
        None => {
            push_bool(out, false);
            proof {
                assert(old(out)@ + enc_bool(false) =~= old(out)@ + enc_opt_u128(None));
            }
        },
        Some(v) => {
            let ghost base = out@;
            push_bool(out, true);
            push_u128(out, *v);
            proof {
                assert(out@ =~= base + enc_opt_u128(Some(*v)));
            }
        },
    }
}

pub fn read_opt_u128(buf: &Vec<u8>, pos: usize) -> (r: Option<(Option<u128>, usize)>)
    ensures
        match r {
            Some((o, np)) => sd_opt_u128(buf@, pos as int) == Some((o, np as int)),
            None => sd_opt_u128(buf@, pos as int) is None,
        },
{
    match read_bool(buf, pos) {
        Some((false, p1)) => Some((None, p1)),
        Some((true, p1)) => match read_u128(buf, p1) {
            Some((v, p2)) => Some((Some(v), p2)),
            None => None,
        },
        None => None,
    }
}

/// A split of a buffer into a parsed head and an arbitrary continuation.
pub proof fn lemma_subrange_split(b: Seq<u8>, p: int, head: Seq<u8>, tail: Seq<u8>)
    requires
        0 <= p,
        p + head.len() + tail.len() <= b.len(),
        b.subrange(p, p + head.len() + tail.len()) == head + tail,
    ensures
        b.subrange(p, p + head.len()) == head,
        b.subrange(p + head.len(), p + head.len() + tail.len()) == tail,
{
    let whole = b.subrange(p, p + head.len() + tail.len());
    assert(b.subrange(p, p + head.len()) =~= head) by {
        assert forall|j: int| 0 <= j < head.len() implies b.subrange(p, p + head.len())[j]
            == head[j] by {
            assert(whole[j] == (head + tail)[j]);
        }
    }
    assert(b.subrange(p + head.len(), p + head.len() + tail.len()) =~= tail) by {
        assert forall|j: int| 0 <= j < tail.len() implies b.subrange(
            p + head.len(),
            p + head.len() + tail.len(),
        )[j] == tail[j] by {
            assert(whole[head.len() + j] == (head + tail)[head.len() + j]);
            assert(whole[head.len() + j] == b[p + head.len() + j]);
        }
    }
}

pub proof fn lemma_sd_opt_text(b: Seq<u8>, p: int, l: Option<Seq<char>>)
    requires
        0 <= p,
        (l matches Some(s) ==> s.len() < 0x1_0000_0000_0000_0000),
        p + enc_opt_text(l).len() <= b.len(),
        b.subrange(p, p + enc_opt_text(l).len()) == enc_opt_text(l),
    ensures
        sd_opt_text(b, p) == Some((l, p + enc_opt_text(l).len())),
{
    match l {
        None => {
            assert(b.subrange(p, p + 1) =~= enc_bool(false));
            lemma_sd_bool(b, p, false);
        },
        Some(s) => {
            lemma_subrange_split(b, p, seq![1u8], enc_text(s));
            assert(b.subrange(p, p + 1) =~= enc_bool(true));
            lemma_sd_bool(b, p, true);
            lemma_sd_text(b, p + 1, s);
        },
    }
}

pub proof fn lemma_sd_opt_u128(b: Seq<u8>, p: int, o: Option<u128>)
    requires
        0 <= p,
        p + enc_opt_u128(o).len() <= b.len(),
        b.subrange(p, p + enc_opt_u128(o).len()) == enc_opt_u128(o),
    ensures
        sd_opt_u128(b, p) == Some((o, p + enc_opt_u128(o).len())),
{
    match o {
        None => {
            assert(b.subrange(p, p + 1) =~= enc_bool(false));
            lemma_sd_bool(b, p, false);
        },
        Some(v) => {
            lemma_le_bytes_len(v as int, 16);
            lemma_subrange_split(b, p, seq![1u8], enc_u128(v));
            assert(b.subrange(p, p + 1) =~= enc_bool(true));
            lemma_sd_bool(b, p, true);
            lemma_sd_u128(b, p + 1, v);
        },
    }
}

// --- positions and point lists ---

pub open spec fn enc_pos(p: Position) -> Seq<u8> {
    enc_i32(p.x) + enc_i32(p.y)
}

pub open spec fn sd_pos(b: Seq<u8>, p: int) -> Option<(Position, int)> {
    match sd_i32(b, p) {
        Some((x, p1)) => match sd_i32(b, p1) {
            Some((y, p2)) => Some((Position { x, y }, p2)),
            None => None,
        },
        None => None,
    }
}

pub fn write_pos(out: &mut Vec<u8>, p: Position)
    ensures
        final(out)@ == old(out)@ + enc_pos(p),
{
    let ghost base = out@;
    push_i32(out, p.x);
    push_i32(out, p.y);
    proof {
        assert(out@ =~= base + enc_pos(p));
    }
}

pub fn read_pos(buf: &Vec<u8>, pos: usize) -> (r: Option<(Position, usize)>)
    ensures
        match r {
            Some((v, np)) => sd_pos(buf@, pos as int) == Some((v, np as int)),
            None => sd_pos(buf@, pos as int) is None,
        },
{
    match read_i32(buf, pos) {
        Some((x, p1)) => match read_i32(buf, p1) {
            Some((y, p2)) => Some((Position::new(x, y), p2)),
            None => None,
        },
        None => None,
    }
}

pub proof fn lemma_sd_pos(b: Seq<u8>, p: int, v: Position)
    requires
        0 <= p,
        p + 8 <= b.len(),
        b.subrange(p, p + 8) == enc_pos(v),
    ensures
        sd_pos(b, p) == Some((v, p + 8)),
{
    lemma_le_bytes_len(v.x as u32 as int, 4);
    lemma_le_bytes_len(v.y as u32 as int, 4);
    lemma_subrange_split(b, p, enc_i32(v.x), enc_i32(v.y));
    lemma_sd_i32(b, p, v.x);
    lemma_sd_i32(b, p + 4, v.y);
}

/// The encoded points of a stroke, in order.
pub open spec fn enc_pts(s: Seq<Position>) -> Seq<u8>
    decreases s.len(),
{
    if s.len() == 0 {
        Seq::empty()
    } else {
        enc_pts(s.drop_last()) + enc_pos(s.last())
    }
}

/// The encoding of a point list: its length and its points.
pub open spec fn enc_points(s: Seq<Position>) -> Seq<u8> {
    le_bytes(s.len() as int, 8) + enc_pts(s)
}

pub proof fn lemma_enc_pts_len(s: Seq<Position>)
    ensures
        enc_pts(s).len() == 8 * s.len(),
    decreases s.len(),
{
    if s.len() > 0 {
        lemma_enc_pts_len(s.drop_last());
        lemma_le_bytes_len(s.last().x as u32 as int, 4);
        lemma_le_bytes_len(s.last().y as u32 as int, 4);
    }
}

pub proof fn lemma_enc_pts_first(s: Seq<Position>)
    requires
        s.len() > 0,
    ensures
        enc_pts(s) == enc_pos(s[0]) + enc_pts(s.drop_first()),
    decreases s.len(),
{
    if s.len() == 1 {
        assert(s.drop_last() =~= Seq::<Position>::empty());
        assert(s.drop_first() =~= Seq::<Position>::empty());
        assert(enc_pts(s) =~= enc_pos(s[0]) + enc_pts(s.drop_first()));
    } else {
        lemma_enc_pts_first(s.drop_last());
        assert(s.drop_last()[0] == s[0]);
        assert(s.drop_last().drop_first() =~= s.drop_first().drop_last());
        assert(s.drop_first().last() == s.last());
        assert(enc_pts(s) =~= enc_pos(s[0]) + enc_pts(s.drop_first()));
    }
}

/// Spec-level parse of `n` points.
pub open spec fn sd_pts(b: Seq<u8>, p: int, n: nat) -> Option<(Seq<Position>, int)>
    decreases n,
{
    if n == 0 {
        if 0 <= p <= b.len() {
            Some((Seq::empty(), p))
        } else {
            None
        }
    } else {
        match sd_pos(b, p) {
            Some((v, p1)) => match sd_pts(b, p1, (n - 1) as nat) {
                Some((s, p2)) => Some((seq![v] + s, p2)),
                None => None,
            },
            None => None,
        }
    }
}

/// Spec-level parse of a point list.
pub open spec fn sd_points(b: Seq<u8>, p: int) -> Option<(Seq<Position>, int)> {
    match sd_u64(b, p) {
        Some((n, p1)) => sd_pts(b, p1, n as nat),
        None => None,
    }
}

pub proof fn lemma_sd_pts(b: Seq<u8>, p: int, s: Seq<Position>)
    requires
        0 <= p,
        p + 8 * s.len() <= b.len(),
        b.subrange(p, p + 8 * s.len()) == enc_pts(s),
    ensures
        sd_pts(b, p, s.len()) == Some((s, p + 8 * s.len())),
    decreases s.len(),
{
    if s.len() == 0 {
    } else {
        lemma_enc_pts_first(s);
        lemma_enc_pts_len(s);
        lemma_enc_pts_len(s.drop_first());
        lemma_le_bytes_len(s[0].x as u32 as int, 4);
        lemma_le_bytes_len(s[0].y as u32 as int, 4);
        assert(b.subrange(p, p + 8 * s.len()) == enc_pos(s[0]) + enc_pts(s.drop_first()));
        lemma_subrange_split(b, p, enc_pos(s[0]), enc_pts(s.drop_first()));
        lemma_sd_pos(b, p, s[0]);
        lemma_sd_pts(b, p + 8, s.drop_first());
        assert(seq![s[0]] + s.drop_first() =~= s);
    }
}

pub proof fn lemma_sd_points(b: Seq<u8>, p: int, s: Seq<Position>)
    requires
        0 <= p,
        s.len() < 0x1_0000_0000_0000_0000,
        p + enc_points(s).len() <= b.len(),
        b.subrange(p, p + enc_points(s).len()) == enc_points(s),
    ensures
        sd_points(b, p) == Some((s, p + enc_points(s).len())),
{
    lemma_le_bytes_len(s.len() as int, 8);
    lemma_enc_pts_len(s);
    lemma_subrange_split(b, p, le_bytes(s.len() as int, 8), enc_pts(s));
    assert(b.subrange(p, p + 8) =~= enc_u64(s.len() as u64));
    lemma_sd_u64(b, p, s.len() as u64);
    lemma_sd_pts(b, p + 8, s);
}

/// Append the encoding of a point list.
pub fn write_points(out: &mut Vec<u8>, v: &Vec<Position>)
    ensures
        final(out)@ == old(out)@ + enc_points(v@),
{
    let ghost base = out@;
    let n = v.len();
    push_u64(out, n as u64);
    let mut i: usize = 0;
    proof {
        assert(v@.subrange(0, 0) =~= Seq::<Position>::empty());
        assert(out@ =~= base + le_bytes(v@.len() as int, 8) + enc_pts(v@.subrange(0, 0)));
    }
    while i < n
        invariant
            i <= n,
            n == v@.len(),
            out@ == base + le_bytes(v@.len() as int, 8) + enc_pts(v@.subrange(0, i as int)),
        decreases n - i,
    {
        write_pos(out, v[i]);
        proof {
            let pre = v@.subrange(0, i as int);
            let ext = v@.subrange(0, i + 1);
            assert(ext.drop_last() =~= pre);
            assert(ext.last() == v@[i as int]);
            assert(out@ =~= base + le_bytes(v@.len() as int, 8) + enc_pts(ext));
        }
        i = i + 1;
    }
    proof {
        assert(v@.subrange(0, v@.len() as int) =~= v@);
    }
}

/// Read a point list.
pub fn read_points(buf: &Vec<u8>, pos: usize) -> (r: Option<(Vec<Position>, usize)>)
    ensures
        match r {
            Some((v, np)) => sd_points(buf@, pos as int) == Some((v@, np as int)),
            None => sd_points(buf@, pos as int) is None,
        },
{
    let (n, start) = match read_u64(buf, pos) {
        Some(x) => x,
        None => {
            return None;
        },
    };
    let mut v: Vec<Position> = Vec::new();
    let mut p: usize = start;
    let mut i: u64 = 0;
    proof {
        assert(seq![] + Seq::<Position>::empty() =~= Seq::<
            Position,
        >::empty());
    }
    while i < n
        invariant
            i <= n,
            p <= buf@.len(),
            sd_u64(buf@, pos as int) == Some((n, start as int)),
            sd_pts(buf@, start as int, n as nat) == (match sd_pts(buf@, p as int, (n - i) as nat) {
                Some((t, q)) => Some((v@ + t, q)),
                None => None::<(Seq<Position>, int)>,
            }),
        decreases n - i,
    {
        let ghost pre = v@;
        match read_pos(buf, p) {
            Some((pt, np)) => {
                v.push(pt);
                proof {
                    assert forall|t: Seq<Position>| pre + (seq![pt] + t) =~= v@
                        + t by {}
                }
                p = np;
            },
            None => {
                proof {
                    assert((n - i) as nat != 0);
                    assert(sd_pts(buf@, p as int, (n - i) as nat) is None);
                }
                return None;
            },
        }
        i = i + 1;
    }
    proof {
        assert(v@ + Seq::<Position>::empty() =~= v@);
    }
    Some((v, p))
}

// --- single bytes, styles and colors ---

pub open spec fn sd_u8(b: Seq<u8>, p: int) -> Option<(u8, int)> {
    if 0 <= p && p + 1 <= b.len() {
        Some((b[p], p + 1))
    } else {
        None
    }
}

pub fn push_u8(out: &mut Vec<u8>, v: u8)
    ensures
        final(out)@ == old(out)@ + seq![v],
{
    out.push(v);
    proof {
        assert(out@ =~= old(out)@ + seq![v]);
    }
}

pub fn read_u8(buf: &Vec<u8>, pos: usize) -> (r: Option<(u8, usize)>)
    ensures
        match r {
            Some((v, np)) => sd_u8(buf@, pos as int) == Some((v, np as int)),
            None => sd_u8(buf@, pos as int) is None,
        },
{
    if pos >= buf.len() {
        return None;
    }
    Some((buf[pos], pos + 1))
}

/// The byte a line style is written as.
pub open spec fn style_code(s: LineStyle) -> u8 {
    match s {
        LineStyle::Straight => 0,
        LineStyle::OrthogonalHV => 1,
        LineStyle::OrthogonalVH => 2,
    }
}

/// The line style a byte denotes.
pub open spec fn code_style(v: u8) -> Option<LineStyle> {
    if v == 0 {
        Some(LineStyle::Straight)
    } else if v == 1 {
        Some(LineStyle::OrthogonalHV)
    } else if v == 2 {
        Some(LineStyle::OrthogonalVH)
    } else {
        None
    }
}

pub open spec fn enc_style(s: LineStyle) -> Seq<u8> {
    seq![style_code(s)]
}

pub open spec fn sd_style(b: Seq<u8>, p: int) -> Option<(LineStyle, int)> {
    match sd_u8(b, p) {
        Some((v, np)) => match code_style(v) {
            Some(s) => Some((s, np)),
            None => None,
        },
        None => None,
    }
}

pub fn write_style(out: &mut Vec<u8>, s: LineStyle)
    ensures
        final(out)@ == old(out)@ + enc_style(s),
{
    let v: u8 = match s {
        LineStyle::Straight => 0,
        LineStyle::OrthogonalHV => 1,
        LineStyle::OrthogonalVH => 2,
    };
    push_u8(out, v);
}

pub fn read_style(buf: &Vec<u8>, pos: usize) -> (r: Option<(LineStyle, usize)>)
    ensures
        match r {
            Some((s, np)) => sd_style(buf@, pos as int) == Some((s, np as int)),
            None => sd_style(buf@, pos as int) is None,
        },
{
    match read_u8(buf, pos) {
        Some((v, np)) => {
            if v == 0 {
                Some((LineStyle::Straight, np))
            } else if v == 1 {
                Some((LineStyle::OrthogonalHV, np))
            } else if v == 2 {
                Some((LineStyle::OrthogonalVH, np))
            } else {
                None
            }
        },
        None => None,
    }
}

/// The byte a color is written as.
pub open spec fn color_code(c: ShapeColor) -> u8 {
    match c {
        ShapeColor::White => 0,
        ShapeColor::Black => 1,
        ShapeColor::Red => 2,
        ShapeColor::Green => 3,
        ShapeColor::Yellow => 4,
        ShapeColor::Blue => 5,
        ShapeColor::Magenta => 6,
        ShapeColor::Cyan => 7,
        ShapeColor::Gray => 8,
        ShapeColor::DarkGray => 9,
        ShapeColor::LightRed => 10,
        ShapeColor::LightGreen => 11,
        ShapeColor::LightYellow => 12,
        ShapeColor::LightBlue => 13,
        ShapeColor::LightMagenta => 14,
        ShapeColor::LightCyan => 15,
    }
}

/// The color a byte denotes.
pub open spec fn code_color(v: u8) -> Option<ShapeColor> {
    if v == 0 {
        Some(ShapeColor::White)
    } else if v == 1 {
        Some(ShapeColor::Black)
    } else if v == 2 {
        Some(ShapeColor::Red)
    } else if v == 3 {
        Some(ShapeColor::Green)
    } else if v == 4 {
        Some(ShapeColor::Yellow)
    } else if v == 5 {
        Some(ShapeColor::Blue)
    } else if v == 6 {
        Some(ShapeColor::Magenta)
    } else if v == 7 {
        Some(ShapeColor::Cyan)
    } else if v == 8 {
        Some(ShapeColor::Gray)
    } else if v == 9 {
        Some(ShapeColor::DarkGray)
    } else if v == 10 {
        Some(ShapeColor::LightRed)
    } else if v == 11 {
        Some(ShapeColor::LightGreen)
    } else if v == 12 {
        Some(ShapeColor::LightYellow)
    } else if v == 13 {
        Some(ShapeColor::LightBlue)
    } else if v == 14 {
        Some(ShapeColor::LightMagenta)
    } else if v == 15 {
        Some(ShapeColor::LightCyan)
    } else {
        None
    }
}

pub open spec fn enc_color(c: ShapeColor) -> Seq<u8> {
    seq![color_code(c)]
}

pub open spec fn sd_color(b: Seq<u8>, p: int) -> Option<(ShapeColor, int)> {
    match sd_u8(b, p) {
        Some((v, np)) => match code_color(v) {
            Some(c) => Some((c, np)),
            None => None,
        },
        None => None,
    }
}

pub fn write_color(out: &mut Vec<u8>, c: ShapeColor)
    ensures
        final(out)@ == old(out)@ + enc_color(c),
{
    let v: u8 = match c {
        ShapeColor::White => 0,
        ShapeColor::Black => 1,
        ShapeColor::Red => 2,
        ShapeColor::Green => 3,
        ShapeColor::Yellow => 4,
        ShapeColor::Blue => 5,
        ShapeColor::Magenta => 6,
        ShapeColor::Cyan => 7,
        ShapeColor::Gray => 8,
        ShapeColor::DarkGray => 9,
        ShapeColor::LightRed => 10,
        ShapeColor::LightGreen => 11,
        ShapeColor::LightYellow => 12,
        ShapeColor::LightBlue => 13,
        ShapeColor::LightMagenta => 14,
        ShapeColor::LightCyan => 15,
    };
    push_u8(out, v);
}

pub fn read_color(buf: &Vec<u8>, pos: usize) -> (r: Option<(ShapeColor, usize)>)
    ensures
        match r {
            Some((c, np)) => sd_color(buf@, pos as int) == Some((c, np as int)),
            None => sd_color(buf@, pos as int) is None,
        },
{
    match read_u8(buf, pos) {
        Some((v, np)) => {
            if v == 0 {
                Some((ShapeColor::White, np))
            } else if v == 1 {
                Some((ShapeColor::Black, np))
            } else if v == 2 {
                Some((ShapeColor::Red, np))
            } else if v == 3 {
                Some((ShapeColor::Green, np))
            } else if v == 4 {
                Some((ShapeColor::Yellow, np))
            } else if v == 5 {
                Some((ShapeColor::Blue, np))
            } else if v == 6 {
                Some((ShapeColor::Magenta, np))
            } else if v == 7 {
                Some((ShapeColor::Cyan, np))
            } else if v == 8 {
                Some((ShapeColor::Gray, np))
            } else if v == 9 {
                Some((ShapeColor::DarkGray, np))
            } else if v == 10 {
                Some((ShapeColor::LightRed, np))
            } else if v == 11 {
                Some((ShapeColor::LightGreen, np))
            } else if v == 12 {
                Some((ShapeColor::LightYellow, np))
            } else if v == 13 {
                Some((ShapeColor::LightBlue, np))
            } else if v == 14 {
                Some((ShapeColor::LightMagenta, np))
            } else if v == 15 {
                Some((ShapeColor::LightCyan, np))
            } else {
                None
            }
        },
        None => None,
    }
}

// --- length facts ---

pub proof fn lemma_enc_pos_len(v: Position)
    ensures
        enc_pos(v).len() == 8,
{
    lemma_le_bytes_len(v.x as u32 as int, 4);
    lemma_le_bytes_len(v.y as u32 as int, 4);
}

pub proof fn lemma_enc_opt_u128_len(o: Option<u128>)
    ensures
        enc_opt_u128(o).len() == (match o {
            None => 1int,
            Some(v) => 17int,
        }),
{
    match o {
        None => {},
        Some(v) => {
            lemma_le_bytes_len(v as int, 16);
        },
    }
}

pub proof fn lemma_enc_text_len(s: Seq<char>)
    ensures
        enc_text(s).len() == 8 + 4 * s.len(),
{
    lemma_le_bytes_len(s.len() as int, 8);
    lemma_enc_chars_len(s);
}

pub proof fn lemma_enc_opt_text_len(l: Option<Seq<char>>)
    ensures
        enc_opt_text(l).len() == (match l {
            None => 1int,
            Some(s) => 9 + 4 * s.len() as int,
        }),
{
    match l {
        None => {},
        Some(s) => {
            lemma_enc_text_len(s);
        },
    }
}

pub proof fn lemma_enc_points_len(s: Seq<Position>)
    ensures
        enc_points(s).len() == 8 + 8 * s.len(),
{
    lemma_le_bytes_len(s.len() as int, 8);
    lemma_enc_pts_len(s);
}

// --- shape records ---

use crate::shapes::ShapeKindV;

/// The tag byte of a shape variant.
pub open spec fn kind_tag(k: ShapeKindV) -> u8 {
    match k {
        ShapeKindV::Line { .. } => 1,
        ShapeKindV::Arrow { .. } => 2,
        ShapeKindV::Rectangle { .. } => 3,
        ShapeKindV::DoubleBox { .. } => 4,
        ShapeKindV::Diamond { .. } => 5,
        ShapeKindV::Ellipse { .. } => 6,
        ShapeKindV::Freehand { .. } => 7,
        ShapeKindV::Text { .. } => 8,
        ShapeKindV::Triangle { .. } => 9,
        ShapeKindV::Parallelogram { .. } => 10,
        ShapeKindV::Hexagon { .. } => 11,
        ShapeKindV::Trapezoid { .. } => 12,
        ShapeKindV::RoundedRect { .. } => 13,
        ShapeKindV::Cylinder { .. } => 14,
        ShapeKindV::Cloud { .. } => 15,
        ShapeKindV::Star { .. } => 16,
    }
}

pub open spec fn enc_line_fields(
    start: Position,
    end: Position,
    style: LineStyle,
    sc: Option<u128>,
    ec: Option<u128>,
    label: Option<Seq<char>>,
    color: ShapeColor,
) -> Seq<u8> {
    enc_pos(start) + (enc_pos(end) + (enc_style(style) + (enc_opt_u128(sc) + (enc_opt_u128(ec) + (
    enc_opt_text(label) + enc_color(color))))))
}

pub open spec fn enc_box_fields(
    start: Position,
    end: Position,
    label: Option<Seq<char>>,
    color: ShapeColor,
) -> Seq<u8> {
    enc_pos(start) + (enc_pos(end) + (enc_opt_text(label) + enc_color(color)))
}

pub open spec fn enc_radial_fields(
    center: Position,
    a: i32,
    b: i32,
    label: Option<Seq<char>>,
    color: ShapeColor,
) -> Seq<u8> {
    enc_pos(center) + (enc_i32(a) + (enc_i32(b) + (enc_opt_text(label) + enc_color(color))))
}

pub open spec fn enc_tri_fields(
    p1: Position,
    p2: Position,
    p3: Position,
    label: Option<Seq<char>>,
    color: ShapeColor,
) -> Seq<u8> {
    enc_pos(p1) + (enc_pos(p2) + (enc_pos(p3) + (enc_opt_text(label) + enc_color(color))))
}

pub open spec fn enc_free_fields(
    points: Seq<Position>,
    ch: char,
    label: Option<Seq<char>>,
    color: ShapeColor,
) -> Seq<u8> {
    enc_points(points) + (enc_char(ch) + (enc_opt_text(label) + enc_color(color)))
}

pub open spec fn enc_text_fields(pos: Position, content: Seq<char>, color: ShapeColor) -> Seq<
    u8,
> {
    enc_pos(pos) + (enc_text(content) + enc_color(color))
}

/// The encoding of a shape record: its tag and its fields.
pub open spec fn enc_kind(k: ShapeKindV) -> Seq<u8> {
    seq![kind_tag(k)] + (match k {
        ShapeKindV::Line { start, end, style, start_connection, end_connection, label, color } => enc_line_fields(
            start,
            end,
            style,
            start_connection,
            end_connection,
            label,
            color,
        ),
        ShapeKindV::Arrow { start, end, style, start_connection, end_connection, label, color } => enc_line_fields(
            start,
            end,
            style,
            start_connection,
            end_connection,
            label,
            color,
        ),
        ShapeKindV::Rectangle { start, end, label, color } => enc_box_fields(start, end, label, color),
        ShapeKindV::DoubleBox { start, end, label, color } => enc_box_fields(start, end, label, color),
        ShapeKindV::Diamond { center, half_width, half_height, label, color } => enc_radial_fields(
            center,
            half_width,
            half_height,
            label,
            color,
        ),
        ShapeKindV::Ellipse { center, radius_x, radius_y, label, color } => enc_radial_fields(
            center,
            radius_x,
            radius_y,
            label,
            color,
        ),
        ShapeKindV::Freehand { points, ch, label, color } => enc_free_fields(points, ch, label, color),
        ShapeKindV::Text { pos, content, color } => enc_text_fields(pos, content, color),
        ShapeKindV::Triangle { p1, p2, p3, label, color } => enc_tri_fields(p1, p2, p3, label, color),
        ShapeKindV::Parallelogram { start, end, label, color } => enc_box_fields(start, end, label, color),
        ShapeKindV::Hexagon { center, radius_x, radius_y, label, color } => enc_radial_fields(
            center,
            radius_x,
            radius_y,
            label,
            color,
        ),
        ShapeKindV::Trapezoid { start, end, label, color } => enc_box_fields(start, end, label, color),
        ShapeKindV::RoundedRect { start, end, label, color } => enc_box_fields(start, end, label, color),
        ShapeKindV::Cylinder { start, end, label, color } => enc_box_fields(start, end, label, color),
        ShapeKindV::Cloud { start, end, label, color } => enc_box_fields(start, end, label, color),
        ShapeKindV::Star { center, outer_radius, inner_radius, label, color } => enc_radial_fields(
            center,
            outer_radius,
            inner_radius,
            label,
            color,
        ),
    })
}

pub open spec fn sd_line_fields(b: Seq<u8>, p: int) -> Option<
    ((Position, Position, LineStyle, Option<u128>, Option<u128>, Option<Seq<char>>, ShapeColor), int),
> {
    match sd_pos(b, p) {
        Some((start, p1)) => match sd_pos(b, p1) {
            Some((end, p2)) => match sd_style(b, p2) {
                Some((style, p3)) => match sd_opt_u128(b, p3) {
                    Some((sc, p4)) => match sd_opt_u128(b, p4) {
                        Some((ec, p5)) => match sd_opt_text(b, p5) {
                            Some((label, p6)) => match sd_color(b, p6) {
                                Some((color, p7)) => Some((
                                    (start, end, style, sc, ec, label, color),
                                    p7,
                                )),
                                None => None,
                            },
                            None => None,
                        },
                        None => None,
                    },
                    None => None,
                },
                None => None,
            },
            None => None,
        },
        None => None,
    }
}

pub open spec fn sd_box_fields(b: Seq<u8>, p: int) -> Option<
    ((Position, Position, Option<Seq<char>>, ShapeColor), int),
> {
    match sd_pos(b, p) {
        Some((start, p1)) => match sd_pos(b, p1) {
            Some((end, p2)) => match sd_opt_text(b, p2) {
                Some((label, p3)) => match sd_color(b, p3) {
                    Some((color, p4)) => Some(((start, end, label, color), p4)),
                    None => None,
                },
                None => None,
            },
            None => None,
        },
        None => None,
    }
}

pub open spec fn sd_radial_fields(b: Seq<u8>, p: int) -> Option<
    ((Position, i32, i32, Option<Seq<char>>, ShapeColor), int),
> {
    match sd_pos(b, p) {
        Some((center, p1)) => match sd_i32(b, p1) {
            Some((a, p2)) => match sd_i32(b, p2) {
                Some((bb, p3)) => match sd_opt_text(b, p3) {
                    Some((label, p4)) => match sd_color(b, p4) {
                        Some((color, p5)) => Some(((center, a, bb, label, color), p5)),
                        None => None,
                    },
                    None => None,
                },
                None => None,
            },
            None => None,
        },
        None => None,
    }
}

pub open spec fn sd_tri_fields(b: Seq<u8>, p: int) -> Option<
    ((Position, Position, Position, Option<Seq<char>>, ShapeColor), int),
> {
    match sd_pos(b, p) {
        Some((p1v, p1)) => match sd_pos(b, p1) {
            Some((p2v, p2)) => match sd_pos(b, p2) {
                Some((p3v, p3)) => match sd_opt_text(b, p3) {
                    Some((label, p4)) => match sd_color(b, p4) {
                        Some((color, p5)) => Some(((p1v, p2v, p3v, label, color), p5)),
                        None => None,
                    },
                    None => None,
                },
                None => None,
            },
            None => None,
        },
        None => None,
    }
}

pub open spec fn sd_free_fields(b: Seq<u8>, p: int) -> Option<
    ((Seq<Position>, char, Option<Seq<char>>, ShapeColor), int),
> {
    match sd_points(b, p) {
        Some((points, p1)) => match sd_char(b, p1) {
            Some((ch, p2)) => match sd_opt_text(b, p2) {
                Some((label, p3)) => match sd_color(b, p3) {
                    Some((color, p4)) => Some(((points, ch, label, color), p4)),
                    None => None,
                },
                None => None,
            },
            None => None,
        },
        None => None,
    }
}

pub open spec fn sd_text_fields(b: Seq<u8>, p: int) -> Option<
    ((Position, Seq<char>, ShapeColor), int),
> {
    match sd_pos(b, p) {
        Some((pos, p1)) => match sd_text(b, p1) {
            Some((content, p2)) => match sd_color(b, p2) {
                Some((color, p3)) => Some(((pos, content, color), p3)),
                None => None,
            },
            None => None,
        },
        None => None,
    }
}

/// Spec-level parse of a shape record.
pub open spec fn sd_kind(b: Seq<u8>, p: int) -> Option<(ShapeKindV, int)> {
    match sd_u8(b, p) {
        Some((tag, p1)) => if tag == 1 || tag == 2 {
            match sd_line_fields(b, p1) {
                Some(((start, end, style, sc, ec, label, color), p2)) => if tag == 1 {
                    Some((
                        ShapeKindV::Line {
                            start,
                            end,
                            style,
                            start_connection: sc,
                            end_connection: ec,
                            label,
                            color,
                        },
                        p2,
                    ))
                } else {
                    Some((
                        ShapeKindV::Arrow {
                            start,
                            end,
                            style,
                            start_connection: sc,
                            end_connection: ec,
                            label,
                            color,
                        },
                        p2,
                    ))
                },
                None => None,
            }
        } else if tag == 3 || tag == 4 || tag == 10 || tag == 12 || tag == 13 || tag == 14 || tag
            == 15 {
            match sd_box_fields(b, p1) {
                Some(((start, end, label, color), p2)) => if tag == 3 {
                    Some((ShapeKindV::Rectangle { start, end, label, color }, p2))
                } else if tag == 4 {
                    Some((ShapeKindV::DoubleBox { start, end, label, color }, p2))
                } else if tag == 10 {
                    Some((ShapeKindV::Parallelogram { start, end, label, color }, p2))
                } else if tag == 12 {
                    Some((ShapeKindV::Trapezoid { start, end, label, color }, p2))
                } else if tag == 13 {
                    Some((ShapeKindV::RoundedRect { start, end, label, color }, p2))
                } else if tag == 14 {
                    Some((ShapeKindV::Cylinder { start, end, label, color }, p2))
                } else {
                    Some((ShapeKindV::Cloud { start, end, label, color }, p2))
                },
                None => None,
            }
        } else if tag == 5 || tag == 6 || tag == 11 || tag == 16 {
            match sd_radial_fields(b, p1) {
                Some(((center, a, bb, label, color), p2)) => if tag == 5 {
                    Some((
                        ShapeKindV::Diamond {
                            center,
                            half_width: a,
                            half_height: bb,
                            label,
                            color,
                        },
                        p2,
                    ))
                } else if tag == 6 {
                    Some((
                        ShapeKindV::Ellipse { center, radius_x: a, radius_y: bb, label, color },
                        p2,
                    ))
                } else if tag == 11 {
                    Some((
                        ShapeKindV::Hexagon { center, radius_x: a, radius_y: bb, label, color },
                        p2,
                    ))
                } else {
                    Some((
                        ShapeKindV::Star {
                            center,
                            outer_radius: a,
                            inner_radius: bb,
                            label,
                            color,
                        },
                        p2,
                    ))
                },
                None => None,
            }
        } else if tag == 7 {
            match sd_free_fields(b, p1) {
                Some(((points, ch, label, color), p2)) => Some((
                    ShapeKindV::Freehand { points, ch, label, color },
                    p2,
                )),
                None => None,
            }
        } else if tag == 8 {
            match sd_text_fields(b, p1) {
                Some(((pos, content, color), p2)) => Some((
                    ShapeKindV::Text { pos, content, color },
                    p2,
                )),
                None => None,
            }
        } else if tag == 9 {
            match sd_tri_fields(b, p1) {
                Some(((p1v, p2v, p3v, label, color), p2)) => Some((
                    ShapeKindV::Triangle { p1: p1v, p2: p2v, p3: p3v, label, color },
                    p2,
                )),
                None => None,
            }
        } else {
            None
        },
        None => None,
    }
}

/// Texts and strokes short enough for their length prefixes.
pub open spec fn kind_enc_ok(k: ShapeKindV) -> bool {
    &&& (crate::shapes::kind_label(k) matches Some(s) ==> s.len() < 0x1_0000_0000_0000_0000)
    &&& (k matches ShapeKindV::Text { content, .. } ==> content.len() < 0x1_0000_0000_0000_0000)
    &&& (k matches ShapeKindV::Freehand { points, .. } ==> points.len() < 0x1_0000_0000_0000_0000)
}

pub proof fn lemma_sd_style(b: Seq<u8>, p: int, s: LineStyle)
    requires
        0 <= p,
        p + 1 <= b.len(),
        b.subrange(p, p + 1) == enc_style(s),
    ensures
        sd_style(b, p) == Some((s, p + 1)),
{
    assert(b[p] == b.subrange(p, p + 1)[0]);
}

pub proof fn lemma_sd_color(b: Seq<u8>, p: int, c: ShapeColor)
    requires
        0 <= p,
        p + 1 <= b.len(),
        b.subrange(p, p + 1) == enc_color(c),
    ensures
        sd_color(b, p) == Some((c, p + 1)),
{
    assert(b[p] == b.subrange(p, p + 1)[0]);
}

pub proof fn lemma_sd_line_fields(
    b: Seq<u8>,
    p: int,
    start: Position,
    end: Position,
    style: LineStyle,
    sc: Option<u128>,
    ec: Option<u128>,
    label: Option<Seq<char>>,
    color: ShapeColor,
)
    requires
        0 <= p,
        (label matches Some(s) ==> s.len() < 0x1_0000_0000_0000_0000),
        p + enc_line_fields(start, end, style, sc, ec, label, color).len() <= b.len(),
        b.subrange(p, p + enc_line_fields(start, end, style, sc, ec, label, color).len())
            == enc_line_fields(start, end, style, sc, ec, label, color),
    ensures
        sd_line_fields(b, p) == Some((
            (start, end, style, sc, ec, label, color),
            p + enc_line_fields(start, end, style, sc, ec, label, color).len(),
        )),
{
    let e1 = enc_pos(start);
    let e2 = enc_pos(end);
    let e3 = enc_style(style);
    let e4 = enc_opt_u128(sc);
    let e5 = enc_opt_u128(ec);
    let e6 = enc_opt_text(label);
    let e7 = enc_color(color);
    lemma_enc_pos_len(start);
    lemma_enc_pos_len(end);
    lemma_enc_opt_u128_len(sc);
    lemma_enc_opt_u128_len(ec);
    lemma_enc_opt_text_len(label);
    let p1 = p + e1.len();
    lemma_subrange_split(b, p, e1, e2 + (e3 + (e4 + (e5 + (e6 + e7)))));
    lemma_sd_pos(b, p, start);
    let p2 = p1 + e2.len();
    lemma_subrange_split(b, p1, e2, e3 + (e4 + (e5 + (e6 + e7))));
    lemma_sd_pos(b, p1, end);
    let p3 = p2 + e3.len();
    lemma_subrange_split(b, p2, e3, e4 + (e5 + (e6 + e7)));
    lemma_sd_style(b, p2, style);
    let p4 = p3 + e4.len();
    lemma_subrange_split(b, p3, e4, e5 + (e6 + e7));
    lemma_sd_opt_u128(b, p3, sc);
    let p5 = p4 + e5.len();
    lemma_subrange_split(b, p4, e5, e6 + e7);
    lemma_sd_opt_u128(b, p4, ec);
    let p6 = p5 + e6.len();
    lemma_subrange_split(b, p5, e6, e7);
    lemma_sd_opt_text(b, p5, label);
    lemma_sd_color(b, p6, color);
}

pub proof fn lemma_sd_box_fields(
    b: Seq<u8>,
    p: int,
    start: Position,
    end: Position,
    label: Option<Seq<char>>,
    color: ShapeColor,
)
    requires
        0 <= p,
        (label matches Some(s) ==> s.len() < 0x1_0000_0000_0000_0000),
        p + enc_box_fields(start, end, label, color).len() <= b.len(),
        b.subrange(p, p + enc_box_fields(start, end, label, color).len()) == enc_box_fields(
            start,
            end,
            label,
            color,
        ),
    ensures
        sd_box_fields(b, p) == Some((
            (start, end, label, color),
            p + enc_box_fields(start, end, label, color).len(),
        )),
{
    let e1 = enc_pos(start);
    let e2 = enc_pos(end);
    let e3 = enc_opt_text(label);
    let e4 = enc_color(color);
    lemma_enc_pos_len(start);
    lemma_enc_pos_len(end);
    lemma_enc_opt_text_len(label);
    let p1 = p + e1.len();
    lemma_subrange_split(b, p, e1, e2 + (e3 + e4));
    lemma_sd_pos(b, p, start);
    let p2 = p1 + e2.len();
    lemma_subrange_split(b, p1, e2, e3 + e4);
    lemma_sd_pos(b, p1, end);
    let p3 = p2 + e3.len();
    lemma_subrange_split(b, p2, e3, e4);
    lemma_sd_opt_text(b, p2, label);
    lemma_sd_color(b, p3, color);
}

pub proof fn lemma_sd_radial_fields(
    b: Seq<u8>,
    p: int,
    center: Position,
    a: i32,
    bb: i32,
    label: Option<Seq<char>>,
    color: ShapeColor,
)
    requires
        0 <= p,
        (label matches Some(s) ==> s.len() < 0x1_0000_0000_0000_0000),
        p + enc_radial_fields(center, a, bb, label, color).len() <= b.len(),
        b.subrange(p, p + enc_radial_fields(center, a, bb, label, color).len())
            == enc_radial_fields(center, a, bb, label, color),
    ensures
        sd_radial_fields(b, p) == Some((
            (center, a, bb, label, color),
            p + enc_radial_fields(center, a, bb, label, color).len(),
        )),
{
    let e1 = enc_pos(center);
    let e2 = enc_i32(a);
    let e3 = enc_i32(bb);
    let e4 = enc_opt_text(label);
    let e5 = enc_color(color);
    lemma_enc_pos_len(center);
    lemma_le_bytes_len(a as u32 as int, 4);
    lemma_le_bytes_len(bb as u32 as int, 4);
    lemma_enc_opt_text_len(label);
    let p1 = p + e1.len();
    lemma_subrange_split(b, p, e1, e2 + (e3 + (e4 + e5)));
    lemma_sd_pos(b, p, center);
    let p2 = p1 + e2.len();
    lemma_subrange_split(b, p1, e2, e3 + (e4 + e5));
    lemma_sd_i32(b, p1, a);
    let p3 = p2 + e3.len();
    lemma_subrange_split(b, p2, e3, e4 + e5);
    lemma_sd_i32(b, p2, bb);
    let p4 = p3 + e4.len();
    lemma_subrange_split(b, p3, e4, e5);
    lemma_sd_opt_text(b, p3, label);
    lemma_sd_color(b, p4, color);
}

pub proof fn lemma_sd_tri_fields(
    b: Seq<u8>,
    p: int,
    p1v: Position,
    p2v: Position,
    p3v: Position,
    label: Option<Seq<char>>,
    color: ShapeColor,
)
    requires
        0 <= p,
        (label matches Some(s) ==> s.len() < 0x1_0000_0000_0000_0000),
        p + enc_tri_fields(p1v, p2v, p3v, label, color).len() <= b.len(),
        b.subrange(p, p + enc_tri_fields(p1v, p2v, p3v, label, color).len()) == enc_tri_fields(
            p1v,
            p2v,
            p3v,
            label,
            color,
        ),
    ensures
        sd_tri_fields(b, p) == Some((
            (p1v, p2v, p3v, label, color),
            p + enc_tri_fields(p1v, p2v, p3v, label, color).len(),
        )),
{
    let e1 = enc_pos(p1v);
    let e2 = enc_pos(p2v);
    let e3 = enc_pos(p3v);
    let e4 = enc_opt_text(label);
    let e5 = enc_color(color);
    lemma_enc_pos_len(p1v);
    lemma_enc_pos_len(p2v);
    lemma_enc_pos_len(p3v);
    lemma_enc_opt_text_len(label);
    let p1 = p + e1.len();
    lemma_subrange_split(b, p, e1, e2 + (e3 + (e4 + e5)));
    lemma_sd_pos(b, p, p1v);
    let p2 = p1 + e2.len();
    lemma_subrange_split(b, p1, e2, e3 + (e4 + e5));
    lemma_sd_pos(b, p1, p2v);
    let p3 = p2 + e3.len();
    lemma_subrange_split(b, p2, e3, e4 + e5);
    lemma_sd_pos(b, p2, p3v);
    let p4 = p3 + e4.len();
    lemma_subrange_split(b, p3, e4, e5);
    lemma_sd_opt_text(b, p3, label);
    lemma_sd_color(b, p4, color);
}

pub proof fn lemma_sd_free_fields(
    b: Seq<u8>,
    p: int,
    points: Seq<Position>,
    ch: char,
    label: Option<Seq<char>>,
    color: ShapeColor,
)
    requires
        0 <= p,
        points.len() < 0x1_0000_0000_0000_0000,
        (label matches Some(s) ==> s.len() < 0x1_0000_0000_0000_0000),
        p + enc_free_fields(points, ch, label, color).len() <= b.len(),
        b.subrange(p, p + enc_free_fields(points, ch, label, color).len()) == enc_free_fields(
            points,
            ch,
            label,
            color,
        ),
    ensures
        sd_free_fields(b, p) == Some((
            (points, ch, label, color),
            p + enc_free_fields(points, ch, label, color).len(),
        )),
{
    let e1 = enc_points(points);
    let e2 = enc_char(ch);
    let e3 = enc_opt_text(label);
    let e4 = enc_color(color);
    lemma_enc_points_len(points);
    lemma_le_bytes_len(ch as u32 as int, 4);
    lemma_enc_opt_text_len(label);
    let p1 = p + e1.len();
    lemma_subrange_split(b, p, e1, e2 + (e3 + e4));
    lemma_sd_points(b, p, points);
    let p2 = p1 + e2.len();
    lemma_subrange_split(b, p1, e2, e3 + e4);
    lemma_sd_char(b, p1, ch);
    let p3 = p2 + e3.len();
    lemma_subrange_split(b, p2, e3, e4);
    lemma_sd_opt_text(b, p2, label);
    lemma_sd_color(b, p3, color);
}

pub proof fn lemma_sd_text_fields(
    b: Seq<u8>,
    p: int,
    pos: Position,
    content: Seq<char>,
    color: ShapeColor,
)
    requires
        0 <= p,
        content.len() < 0x1_0000_0000_0000_0000,
        p + enc_text_fields(pos, content, color).len() <= b.len(),
        b.subrange(p, p + enc_text_fields(pos, content, color).len()) == enc_text_fields(
            pos,
            content,
            color,
        ),
    ensures
        sd_text_fields(b, p) == Some((
            (pos, content, color),
            p + enc_text_fields(pos, content, color).len(),
        )),
{
    let e1 = enc_pos(pos);
    let e2 = enc_text(content);
    let e3 = enc_color(color);
    lemma_enc_pos_len(pos);
    lemma_enc_text_len(content);
    let p1 = p + e1.len();
    lemma_subrange_split(b, p, e1, e2 + e3);
    lemma_sd_pos(b, p, pos);
    let p2 = p1 + e2.len();
    lemma_subrange_split(b, p1, e2, e3);
    lemma_sd_text(b, p1, content);
    lemma_sd_color(b, p2, color);
}

#[verifier::spinoff_prover]
proof fn lemma_sd_kind_line(b: Seq<u8>, p: int, k: ShapeKindV)
    requires
        0 <= p,
        k is Line,
        kind_enc_ok(k),
        p + enc_kind(k).len() <= b.len(),
        b.subrange(p, p + enc_kind(k).len()) == enc_kind(k),
    ensures
        sd_kind(b, p) == Some((k, p + enc_kind(k).len())),
{
    let p1 = p + 1;
    match k {
        ShapeKindV::Line { start, end, style, start_connection, end_connection, label, color } => {
            let fields = enc_line_fields(start, end, style, start_connection, end_connection, label, color);
            assert(enc_kind(k) == seq![kind_tag(k)] + fields);
            lemma_subrange_split(b, p, seq![kind_tag(k)], fields);
            assert(b[p] == b.subrange(p, p + 1)[0]);
            lemma_sd_line_fields(b, p1, start, end, style, start_connection, end_connection, label, color);
        },
        _ => {},
    }
}

#[verifier::spinoff_prover]
proof fn lemma_sd_kind_arrow(b: Seq<u8>, p: int, k: ShapeKindV)
    requires
        0 <= p,
        k is Arrow,
        kind_enc_ok(k),
        p + enc_kind(k).len() <= b.len(),
        b.subrange(p, p + enc_kind(k).len()) == enc_kind(k),
    ensures
        sd_kind(b, p) == Some((k, p + enc_kind(k).len())),
{
    let p1 = p + 1;
    match k {
        ShapeKindV::Arrow { start, end, style, start_connection, end_connection, label, color } => {
            let fields = enc_line_fields(start, end, style, start_connection, end_connection, label, color);
            assert(enc_kind(k) == seq![kind_tag(k)] + fields);
            lemma_subrange_split(b, p, seq![kind_tag(k)], fields);
            assert(b[p] == b.subrange(p, p + 1)[0]);
            lemma_sd_line_fields(b, p1, start, end, style, start_connection, end_connection, label, color);
        },
        _ => {},
    }
}

#[verifier::spinoff_prover]
proof fn lemma_sd_kind_rectangle(b: Seq<u8>, p: int, k: ShapeKindV)
    requires
        0 <= p,
        k is Rectangle,
        kind_enc_ok(k),
        p + enc_kind(k).len() <= b.len(),
        b.subrange(p, p + enc_kind(k).len()) == enc_kind(k),
    ensures
        sd_kind(b, p) == Some((k, p + enc_kind(k).len())),
{
    let p1 = p + 1;
    match k {
        ShapeKindV::Rectangle { start, end, label, color } => {
            let fields = enc_box_fields(start, end, label, color);
            assert(enc_kind(k) == seq![kind_tag(k)] + fields);
            lemma_subrange_split(b, p, seq![kind_tag(k)], fields);
            assert(b[p] == b.subrange(p, p + 1)[0]);
            lemma_sd_box_fields(b, p1, start, end, label, color);
        },
        _ => {},
    }
}

#[verifier::spinoff_prover]
proof fn lemma_sd_kind_doublebox(b: Seq<u8>, p: int, k: ShapeKindV)
    requires
        0 <= p,
        k is DoubleBox,
        kind_enc_ok(k),
        p + enc_kind(k).len() <= b.len(),
        b.subrange(p, p + enc_kind(k).len()) == enc_kind(k),
    ensures
        sd_kind(b, p) == Some((k, p + enc_kind(k).len())),
{
    let p1 = p + 1;
    match k {
        ShapeKindV::DoubleBox { start, end, label, color } => {
            let fields = enc_box_fields(start, end, label, color);
            assert(enc_kind(k) == seq![kind_tag(k)] + fields);
            lemma_subrange_split(b, p, seq![kind_tag(k)], fields);
            assert(b[p] == b.subrange(p, p + 1)[0]);
            lemma_sd_box_fields(b, p1, start, end, label, color);
        },
        _ => {},
    }
}

#[verifier::spinoff_prover]
proof fn lemma_sd_kind_diamond(b: Seq<u8>, p: int, k: ShapeKindV)
    requires
        0 <= p,
        k is Diamond,
        kind_enc_ok(k),
        p + enc_kind(k).len() <= b.len(),
        b.subrange(p, p + enc_kind(k).len()) == enc_kind(k),
    ensures
        sd_kind(b, p) == Some((k, p + enc_kind(k).len())),
{
    let p1 = p + 1;
    match k {
        ShapeKindV::Diamond { center, half_width, half_height, label, color } => {
            let fields = enc_radial_fields(center, half_width, half_height, label, color);
            assert(enc_kind(k) == seq![kind_tag(k)] + fields);
            lemma_subrange_split(b, p, seq![kind_tag(k)], fields);
            assert(b[p] == b.subrange(p, p + 1)[0]);
            lemma_sd_radial_fields(b, p1, center, half_width, half_height, label, color);
        },
        _ => {},
    }
}

#[verifier::spinoff_prover]
proof fn lemma_sd_kind_ellipse(b: Seq<u8>, p: int, k: ShapeKindV)
    requires
        0 <= p,
        k is Ellipse,
        kind_enc_ok(k),
        p + enc_kind(k).len() <= b.len(),
        b.subrange(p, p + enc_kind(k).len()) == enc_kind(k),
    ensures
        sd_kind(b, p) == Some((k, p + enc_kind(k).len())),
{
    let p1 = p + 1;
    match k {
        ShapeKindV::Ellipse { center, radius_x, radius_y, label, color } => {
            let fields = enc_radial_fields(center, radius_x, radius_y, label, color);
            assert(enc_kind(k) == seq![kind_tag(k)] + fields);
            lemma_subrange_split(b, p, seq![kind_tag(k)], fields);
            assert(b[p] == b.subrange(p, p + 1)[0]);
            lemma_sd_radial_fields(b, p1, center, radius_x, radius_y, label, color);
        },
        _ => {},
    }
}

#[verifier::spinoff_prover]
proof fn lemma_sd_kind_freehand(b: Seq<u8>, p: int, k: ShapeKindV)
    requires
        0 <= p,
        k is Freehand,
        kind_enc_ok(k),
        p + enc_kind(k).len() <= b.len(),
        b.subrange(p, p + enc_kind(k).len()) == enc_kind(k),
    ensures
        sd_kind(b, p) == Some((k, p + enc_kind(k).len())),
{
    let p1 = p + 1;
    match k {
        ShapeKindV::Freehand { points, ch, label, color } => {
            let fields = enc_free_fields(points, ch, label, color);
            assert(enc_kind(k) == seq![kind_tag(k)] + fields);
            lemma_subrange_split(b, p, seq![kind_tag(k)], fields);
            assert(b[p] == b.subrange(p, p + 1)[0]);
            lemma_sd_free_fields(b, p1, points, ch, label, color);
        },
        _ => {},
    }
}

#[verifier::spinoff_prover]
proof fn lemma_sd_kind_text(b: Seq<u8>, p: int, k: ShapeKindV)
    requires
        0 <= p,
        k is Text,
        kind_enc_ok(k),
        p + enc_kind(k).len() <= b.len(),
        b.subrange(p, p + enc_kind(k).len()) == enc_kind(k),
    ensures
        sd_kind(b, p) == Some((k, p + enc_kind(k).len())),
{
    let p1 = p + 1;
    match k {
        ShapeKindV::Text { pos, content, color } => {
            let fields = enc_text_fields(pos, content, color);
            assert(enc_kind(k) == seq![kind_tag(k)] + fields);
            lemma_subrange_split(b, p, seq![kind_tag(k)], fields);
            assert(b[p] == b.subrange(p, p + 1)[0]);
            lemma_sd_text_fields(b, p1, pos, content, color);
        },
        _ => {},
    }
}

#[verifier::spinoff_prover]
proof fn lemma_sd_kind_triangle(b: Seq<u8>, p: int, k: ShapeKindV)
    requires
        0 <= p,
        k is Triangle,
        kind_enc_ok(k),
        p + enc_kind(k).len() <= b.len(),
        b.subrange(p, p + enc_kind(k).len()) == enc_kind(k),
    ensures
        sd_kind(b, p) == Some((k, p + enc_kind(k).len())),
{
    let p1 = p + 1;
    match k {
        ShapeKindV::Triangle { p1: a, p2: bb, p3: c, label, color } => {
            let fields = enc_tri_fields(a, bb, c, label, color);
            assert(enc_kind(k) == seq![kind_tag(k)] + fields);
            lemma_subrange_split(b, p, seq![kind_tag(k)], fields);
            assert(b[p] == b.subrange(p, p + 1)[0]);
            lemma_sd_tri_fields(b, p1, a, bb, c, label, color);
        },
        _ => {},
    }
}

#[verifier::spinoff_prover]
proof fn lemma_sd_kind_parallelogram(b: Seq<u8>, p: int, k: ShapeKindV)
    requires
        0 <= p,
        k is Parallelogram,
        kind_enc_ok(k),
        p + enc_kind(k).len() <= b.len(),
        b.subrange(p, p + enc_kind(k).len()) == enc_kind(k),
    ensures
        sd_kind(b, p) == Some((k, p + enc_kind(k).len())),
{
    let p1 = p + 1;
    match k {
        ShapeKindV::Parallelogram { start, end, label, color } => {
            let fields = enc_box_fields(start, end, label, color);
            assert(enc_kind(k) == seq![kind_tag(k)] + fields);
            lemma_subrange_split(b, p, seq![kind_tag(k)], fields);
            assert(b[p] == b.subrange(p, p + 1)[0]);
            lemma_sd_box_fields(b, p1, start, end, label, color);
        },
        _ => {},
    }
}

#[verifier::spinoff_prover]
proof fn lemma_sd_kind_hexagon(b: Seq<u8>, p: int, k: ShapeKindV)
    requires
        0 <= p,
        k is Hexagon,
        kind_enc_ok(k),
        p + enc_kind(k).len() <= b.len(),
        b.subrange(p, p + enc_kind(k).len()) == enc_kind(k),
    ensures
        sd_kind(b, p) == Some((k, p + enc_kind(k).len())),
{
    let p1 = p + 1;
    match k {
        ShapeKindV::Hexagon { center, radius_x, radius_y, label, color } => {
            let fields = enc_radial_fields(center, radius_x, radius_y, label, color);
            assert(enc_kind(k) == seq![kind_tag(k)] + fields);
            lemma_subrange_split(b, p, seq![kind_tag(k)], fields);
            assert(b[p] == b.subrange(p, p + 1)[0]);
            lemma_sd_radial_fields(b, p1, center, radius_x, radius_y, label, color);
        },
        _ => {},
    }
}

#[verifier::spinoff_prover]
proof fn lemma_sd_kind_trapezoid(b: Seq<u8>, p: int, k: ShapeKindV)
    requires
        0 <= p,
        k is Trapezoid,
        kind_enc_ok(k),
        p + enc_kind(k).len() <= b.len(),
        b.subrange(p, p + enc_kind(k).len()) == enc_kind(k),
    ensures
        sd_kind(b, p) == Some((k, p + enc_kind(k).len())),
{
    let p1 = p + 1;
    match k {
        ShapeKindV::Trapezoid { start, end, label, color } => {
            let fields = enc_box_fields(start, end, label, color);
            assert(enc_kind(k) == seq![kind_tag(k)] + fields);
            lemma_subrange_split(b, p, seq![kind_tag(k)], fields);
            assert(b[p] == b.subrange(p, p + 1)[0]);
            lemma_sd_box_fields(b, p1, start, end, label, color);
        },
        _ => {},
    }
}

#[verifier::spinoff_prover]
proof fn lemma_sd_kind_roundedrect(b: Seq<u8>, p: int, k: ShapeKindV)
    requires
        0 <= p,
        k is RoundedRect,
        kind_enc_ok(k),
        p + enc_kind(k).len() <= b.len(),
        b.subrange(p, p + enc_kind(k).len()) == enc_kind(k),
    ensures
        sd_kind(b, p) == Some((k, p + enc_kind(k).len())),
{
    let p1 = p + 1;
    match k {
        ShapeKindV::RoundedRect { start, end, label, color } => {
            let fields = enc_box_fields(start, end, label, color);
            assert(enc_kind(k) == seq![kind_tag(k)] + fields);
            lemma_subrange_split(b, p, seq![kind_tag(k)], fields);
            assert(b[p] == b.subrange(p, p + 1)[0]);
            lemma_sd_box_fields(b, p1, start, end, label, color);
        },
        _ => {},
    }
}

#[verifier::spinoff_prover]
proof fn lemma_sd_kind_cylinder(b: Seq<u8>, p: int, k: ShapeKindV)
    requires
        0 <= p,
        k is Cylinder,
        kind_enc_ok(k),
        p + enc_kind(k).len() <= b.len(),
        b.subrange(p, p + enc_kind(k).len()) == enc_kind(k),
    ensures
        sd_kind(b, p) == Some((k, p + enc_kind(k).len())),
{
    let p1 = p + 1;
    match k {
        ShapeKindV::Cylinder { start, end, label, color } => {
            let fields = enc_box_fields(start, end, label, color);
            assert(enc_kind(k) == seq![kind_tag(k)] + fields);
            lemma_subrange_split(b, p, seq![kind_tag(k)], fields);
            assert(b[p] == b.subrange(p, p + 1)[0]);
            lemma_sd_box_fields(b, p1, start, end, label, color);
        },
        _ => {},
    }
}

#[verifier::spinoff_prover]
proof fn lemma_sd_kind_cloud(b: Seq<u8>, p: int, k: ShapeKindV)
    requires
        0 <= p,
        k is Cloud,
        kind_enc_ok(k),
        p + enc_kind(k).len() <= b.len(),
        b.subrange(p, p + enc_kind(k).len()) == enc_kind(k),
    ensures
        sd_kind(b, p) == Some((k, p + enc_kind(k).len())),
{
    let p1 = p + 1;
    match k {
        ShapeKindV::Cloud { start, end, label, color } => {
            let fields = enc_box_fields(start, end, label, color);
            assert(enc_kind(k) == seq![kind_tag(k)] + fields);
            lemma_subrange_split(b, p, seq![kind_tag(k)], fields);
            assert(b[p] == b.subrange(p, p + 1)[0]);
            lemma_sd_box_fields(b, p1, start, end, label, color);
        },
        _ => {},
    }
}

#[verifier::spinoff_prover]
proof fn lemma_sd_kind_star(b: Seq<u8>, p: int, k: ShapeKindV)
    requires
        0 <= p,
        k is Star,
        kind_enc_ok(k),
        p + enc_kind(k).len() <= b.len(),
        b.subrange(p, p + enc_kind(k).len()) == enc_kind(k),
    ensures
        sd_kind(b, p) == Some((k, p + enc_kind(k).len())),
{
    let p1 = p + 1;
    match k {
        ShapeKindV::Star { center, outer_radius, inner_radius, label, color } => {
            let fields = enc_radial_fields(center, outer_radius, inner_radius, label, color);
            assert(enc_kind(k) == seq![kind_tag(k)] + fields);
            lemma_subrange_split(b, p, seq![kind_tag(k)], fields);
            assert(b[p] == b.subrange(p, p + 1)[0]);
            lemma_sd_radial_fields(b, p1, center, outer_radius, inner_radius, label, color);
        },
        _ => {},
    }
}

/// Parsing a shape record out of its own encoding gives it back: the
/// codec round trip.
pub proof fn lemma_sd_kind(b: Seq<u8>, p: int, k: ShapeKindV)
    requires
        0 <= p,
        kind_enc_ok(k),
        p + enc_kind(k).len() <= b.len(),
        b.subrange(p, p + enc_kind(k).len()) == enc_kind(k),
    ensures
        sd_kind(b, p) == Some((k, p + enc_kind(k).len())),
{
    match k {
        ShapeKindV::Line { .. } => lemma_sd_kind_line(b, p, k),
        ShapeKindV::Arrow { .. } => lemma_sd_kind_arrow(b, p, k),
        ShapeKindV::Rectangle { .. } => lemma_sd_kind_rectangle(b, p, k),
        ShapeKindV::DoubleBox { .. } => lemma_sd_kind_doublebox(b, p, k),
        ShapeKindV::Diamond { .. } => lemma_sd_kind_diamond(b, p, k),
        ShapeKindV::Ellipse { .. } => lemma_sd_kind_ellipse(b, p, k),
        ShapeKindV::Freehand { .. } => lemma_sd_kind_freehand(b, p, k),
        ShapeKindV::Text { .. } => lemma_sd_kind_text(b, p, k),
        ShapeKindV::Triangle { .. } => lemma_sd_kind_triangle(b, p, k),
        ShapeKindV::Parallelogram { .. } => lemma_sd_kind_parallelogram(b, p, k),
        ShapeKindV::Hexagon { .. } => lemma_sd_kind_hexagon(b, p, k),
        ShapeKindV::Trapezoid { .. } => lemma_sd_kind_trapezoid(b, p, k),
        ShapeKindV::RoundedRect { .. } => lemma_sd_kind_roundedrect(b, p, k),
        ShapeKindV::Cylinder { .. } => lemma_sd_kind_cylinder(b, p, k),
        ShapeKindV::Cloud { .. } => lemma_sd_kind_cloud(b, p, k),
        ShapeKindV::Star { .. } => lemma_sd_kind_star(b, p, k),
    }
}

use crate::shapes::ShapeKind;

fn write_line_shell(
    out: &mut Vec<u8>,
    tag: u8,
    start: Position,
    end: Position,
    style: LineStyle,
    sc: &Option<u128>,
    ec: &Option<u128>,
    label: &Option<String>,
    color: ShapeColor,
)
    ensures
        final(out)@ == old(out)@ + (seq![tag] + enc_line_fields(
            start,
            end,
            style,
            *sc,
            *ec,
            crate::shapes::opt_text(*label),
            color,
        )),
{
    let ghost base = out@;
    push_u8(out, tag);
    write_pos(out, start);
    write_pos(out, end);
    write_style(out, style);
    write_opt_u128(out, sc);
    write_opt_u128(out, ec);
    write_opt_text(out, label);
    write_color(out, color);
    proof {
        assert(out@ =~= base + (seq![tag] + enc_line_fields(
            start,
            end,
            style,
            *sc,
            *ec,
            crate::shapes::opt_text(*label),
            color,
        )));
    }
}

fn write_box_shell(
    out: &mut Vec<u8>,
    tag: u8,
    start: Position,
    end: Position,
    label: &Option<String>,
    color: ShapeColor,
)
    ensures
        final(out)@ == old(out)@ + (seq![tag] + enc_box_fields(
            start,
            end,
            crate::shapes::opt_text(*label),
            color,
        )),
{
    let ghost base = out@;
    push_u8(out, tag);
    write_pos(out, start);
    write_pos(out, end);
    write_opt_text(out, label);
    write_color(out, color);
    proof {
        assert(out@ =~= base + (seq![tag] + enc_box_fields(
            start,
            end,
            crate::shapes::opt_text(*label),
            color,
        )));
    }
}

fn write_radial_shell(
    out: &mut Vec<u8>,
    tag: u8,
    center: Position,
    a: i32,
    bb: i32,
    label: &Option<String>,
    color: ShapeColor,
)
    ensures
        final(out)@ == old(out)@ + (seq![tag] + enc_radial_fields(
            center,
            a,
            bb,
            crate::shapes::opt_text(*label),
            color,
        )),
{
    let ghost base = out@;
    push_u8(out, tag);
    write_pos(out, center);
    push_i32(out, a);
    push_i32(out, bb);
    write_opt_text(out, label);
    write_color(out, color);
    proof {
        assert(out@ =~= base + (seq![tag] + enc_radial_fields(
            center,
            a,
            bb,
            crate::shapes::opt_text(*label),
            color,
        )));
    }
}

/// Append the encoding of a shape record.
#[verifier::rlimit(100)]
#[verifier::spinoff_prover]
pub fn write_kind(out: &mut Vec<u8>, k: &ShapeKind)
    ensures
        final(out)@ == old(out)@ + enc_kind(k@),
{
    let ghost base = out@;
    match k {
        ShapeKind::Line { start, end, style, start_connection, end_connection, label, color } => {
            write_line_shell(out, 1, *start, *end, *style, start_connection, end_connection, label, *color);
            proof {
                assert(out@ =~= base + enc_kind(k@));
            }
        },
        ShapeKind::Arrow { start, end, style, start_connection, end_connection, label, color } => {
            write_line_shell(out, 2, *start, *end, *style, start_connection, end_connection, label, *color);
            proof {
                assert(out@ =~= base + enc_kind(k@));
            }
        },
        ShapeKind::Rectangle { start, end, label, color } => {
            write_box_shell(out, 3, *start, *end, label, *color);
            proof {
                assert(out@ =~= base + enc_kind(k@));
            }
        },
        ShapeKind::DoubleBox { start, end, label, color } => {
            write_box_shell(out, 4, *start, *end, label, *color);
            proof {
                assert(out@ =~= base + enc_kind(k@));
            }
        },
        ShapeKind::Diamond { center, half_width, half_height, label, color } => {
            write_radial_shell(out, 5, *center, *half_width, *half_height, label, *color);
            proof {
                assert(out@ =~= base + enc_kind(k@));
            }
        },
        ShapeKind::Ellipse { center, radius_x, radius_y, label, color } => {
            write_radial_shell(out, 6, *center, *radius_x, *radius_y, label, *color);
            proof {
                assert(out@ =~= base + enc_kind(k@));
            }
        },
        ShapeKind::Freehand { points, ch, label, color } => {
            push_u8(out, 7);
            write_points(out, points);
            push_char(out, *ch);
            write_opt_text(out, label);
            write_color(out, *color);
            proof {
                assert(out@ =~= base + enc_kind(k@));
            }
        },
        ShapeKind::Text { pos, content, color } => {
            push_u8(out, 8);
            write_pos(out, *pos);
            write_text(out, content.as_str());
            write_color(out, *color);
            proof {
                assert(out@ =~= base + enc_kind(k@));
            }
        },
        _ => {
            write_kind_more(out, k);
        },
    }
}

/// The remaining shape variants of `write_kind`.
#[verifier::rlimit(100)]
#[verifier::spinoff_prover]
fn write_kind_more(out: &mut Vec<u8>, k: &ShapeKind)
    requires
        !(k@ is Line),
        !(k@ is Arrow),
        !(k@ is Rectangle),
        !(k@ is DoubleBox),
        !(k@ is Diamond),
        !(k@ is Ellipse),
        !(k@ is Freehand),
        !(k@ is Text),
    ensures
        final(out)@ == old(out)@ + enc_kind(k@),
{
    let ghost base = out@;
    match k {
        ShapeKind::Triangle { p1, p2, p3, label, color } => {
            push_u8(out, 9);
            write_pos(out, *p1);
            write_pos(out, *p2);
            write_pos(out, *p3);
            write_opt_text(out, label);
            write_color(out, *color);
            proof {
                assert(out@ =~= base + enc_kind(k@));
            }
        },
        ShapeKind::Parallelogram { start, end, label, color } => {
            write_box_shell(out, 10, *start, *end, label, *color);
            proof {
                assert(out@ =~= base + enc_kind(k@));
            }
        },
        ShapeKind::Hexagon { center, radius_x, radius_y, label, color } => {
            write_radial_shell(out, 11, *center, *radius_x, *radius_y, label, *color);
            proof {
                assert(out@ =~= base + enc_kind(k@));
            }
        },
        ShapeKind::Trapezoid { start, end, label, color } => {
            write_box_shell(out, 12, *start, *end, label, *color);
            proof {
                assert(out@ =~= base + enc_kind(k@));
            }
        },
        ShapeKind::RoundedRect { start, end, label, color } => {
            write_box_shell(out, 13, *start, *end, label, *color);
            proof {
                assert(out@ =~= base + enc_kind(k@));
            }
        },
        ShapeKind::Cylinder { start, end, label, color } => {
            write_box_shell(out, 14, *start, *end, label, *color);
            proof {
                assert(out@ =~= base + enc_kind(k@));
            }
        },
        ShapeKind::Cloud { start, end, label, color } => {
            write_box_shell(out, 15, *start, *end, label, *color);
            proof {
                assert(out@ =~= base + enc_kind(k@));
            }
        },
        ShapeKind::Star { center, outer_radius, inner_radius, label, color } => {
            write_radial_shell(out, 16, *center, *outer_radius, *inner_radius, label, *color);
            proof {
                assert(out@ =~= base + enc_kind(k@));
            }
        },
        _ => {
            proof {
                assert(false);
            }
        },
    }
}

fn read_line_fields(buf: &Vec<u8>, pos: usize) -> (r: Option<
    ((Position, Position, LineStyle, Option<u128>, Option<u128>, Option<String>, ShapeColor), usize),
>)
    ensures
        match r {
            Some(((s, e, st, sc, ec, l, c), np)) => sd_line_fields(buf@, pos as int) == Some((
                (s, e, st, sc, ec, crate::shapes::opt_text(l), c),
                np as int,
            )),
            None => sd_line_fields(buf@, pos as int) is None,
        },
{
    let (start, p1) = match read_pos(buf, pos) {
        Some(x) => x,
        None => {
            return None;
        },
    };
    let (end, p2) = match read_pos(buf, p1) {
        Some(x) => x,
        None => {
            return None;
        },
    };
    let (style, p3) = match read_style(buf, p2) {
        Some(x) => x,
        None => {
            return None;
        },
    };
    let (sc, p4) = match read_opt_u128(buf, p3) {
        Some(x) => x,
        None => {
            return None;
        },
    };
    let (ec, p5) = match read_opt_u128(buf, p4) {
        Some(x) => x,
        None => {
            return None;
        },
    };
    let (label, p6) = match read_opt_text(buf, p5) {
        Some(x) => x,
        None => {
            return None;
        },
    };
    let (color, p7) = match read_color(buf, p6) {
        Some(x) => x,
        None => {
            return None;
        },
    };
    Some(((start, end, style, sc, ec, label, color), p7))
}

fn read_box_fields(buf: &Vec<u8>, pos: usize) -> (r: Option<
    ((Position, Position, Option<String>, ShapeColor), usize),
>)
    ensures
        match r {
            Some(((s, e, l, c), np)) => sd_box_fields(buf@, pos as int) == Some((
                (s, e, crate::shapes::opt_text(l), c),
                np as int,
            )),
            None => sd_box_fields(buf@, pos as int) is None,
        },
{
    let (start, p1) = match read_pos(buf, pos) {
        Some(x) => x,
        None => {
            return None;
        },
    };
    let (end, p2) = match read_pos(buf, p1) {
        Some(x) => x,
        None => {
            return None;
        },
    };
    let (label, p3) = match read_opt_text(buf, p2) {
        Some(x) => x,
        None => {
            return None;
        },
    };
    let (color, p4) = match read_color(buf, p3) {
        Some(x) => x,
        None => {
            return None;
        },
    };
    Some(((start, end, label, color), p4))
}

fn read_radial_fields(buf: &Vec<u8>, pos: usize) -> (r: Option<
    ((Position, i32, i32, Option<String>, ShapeColor), usize),
>)
    ensures
        match r {
            Some(((ce, a, bb, l, c), np)) => sd_radial_fields(buf@, pos as int) == Some((
                (ce, a, bb, crate::shapes::opt_text(l), c),
                np as int,
            )),
            None => sd_radial_fields(buf@, pos as int) is None,
        },
{
    let (center, p1) = match read_pos(buf, pos) {
        Some(x) => x,
        None => {
            return None;
        },
    };
    let (a, p2) = match read_i32(buf, p1) {
        Some(x) => x,
        None => {
            return None;
        },
    };
    let (bb, p3) = match read_i32(buf, p2) {
        Some(x) => x,
        None => {
            return None;
        },
    };
    let (label, p4) = match read_opt_text(buf, p3) {
        Some(x) => x,
        None => {
            return None;
        },
    };
    let (color, p5) = match read_color(buf, p4) {
        Some(x) => x,
        None => {
            return None;
        },
    };
    Some(((center, a, bb, label, color), p5))
}

fn read_tri_fields(buf: &Vec<u8>, pos: usize) -> (r: Option<
    ((Position, Position, Position, Option<String>, ShapeColor), usize),
>)
    ensures
        match r {
            Some(((a, bb, c, l, co), np)) => sd_tri_fields(buf@, pos as int) == Some((
                (a, bb, c, crate::shapes::opt_text(l), co),
                np as int,
            )),
            None => sd_tri_fields(buf@, pos as int) is None,
        },
{
    let (a, p1) = match read_pos(buf, pos) {
        Some(x) => x,
        None => {
            return None;
        },
    };
    let (bb, p2) = match read_pos(buf, p1) {
        Some(x) => x,
        None => {
            return None;
        },
    };
    let (c, p3) = match read_pos(buf, p2) {
        Some(x) => x,
        None => {
            return None;
        },
    };
    let (label, p4) = match read_opt_text(buf, p3) {
        Some(x) => x,
        None => {
            return None;
        },
    };
    let (color, p5) = match read_color(buf, p4) {
        Some(x) => x,
        None => {
            return None;
        },
    };
    Some(((a, bb, c, label, color), p5))
}

/// Read a shape record.
pub fn read_kind(buf: &Vec<u8>, pos: usize) -> (r: Option<(ShapeKind, usize)>)
    ensures
        match r {
            Some((k, np)) => sd_kind(buf@, pos as int) == Some((k@, np as int)),
            None => sd_kind(buf@, pos as int) is None,
        },
{
    let (tag, p1) = match read_u8(buf, pos) {
        Some(x) => x,
        None => {
            return None;
        },
    };
    if tag == 1 || tag == 2 {
        match read_line_fields(buf, p1) {
            Some(((start, end, style, sc, ec, label, color), p2)) => {
                if tag == 1 {
                    Some((
                        ShapeKind::Line {
                            start,
                            end,
                            style,
                            start_connection: sc,
                            end_connection: ec,
                            label,
                            color,
                        },
                        p2,
                    ))
                } else {
                    Some((
                        ShapeKind::Arrow {
                            start,
                            end,
                            style,
                            start_connection: sc,
                            end_connection: ec,
                            label,
                            color,
                        },
                        p2,
                    ))
                }
            },
            None => None,
        }
    } else if tag == 3 || tag == 4 || tag == 10 || tag == 12 || tag == 13 || tag == 14 || tag
        == 15 {
        match read_box_fields(buf, p1) {
            Some(((start, end, label, color), p2)) => {
                if tag == 3 {
                    Some((ShapeKind::Rectangle { start, end, label, color }, p2))
                } else if tag == 4 {
                    Some((ShapeKind::DoubleBox { start, end, label, color }, p2))
                } else if tag == 10 {
                    Some((ShapeKind::Parallelogram { start, end, label, color }, p2))
                } else if tag == 12 {
                    Some((ShapeKind::Trapezoid { start, end, label, color }, p2))
                } else if tag == 13 {
                    Some((ShapeKind::RoundedRect { start, end, label, color }, p2))
                } else if tag == 14 {
                    Some((ShapeKind::Cylinder { start, end, label, color }, p2))
                } else {
                    Some((ShapeKind::Cloud { start, end, label, color }, p2))
                }
            },
            None => None,
        }
    } else if tag == 5 || tag == 6 || tag == 11 || tag == 16 {
        match read_radial_fields(buf, p1) {
            Some(((center, a, bb, label, color), p2)) => {
                if tag == 5 {
                    Some((
                        ShapeKind::Diamond {
                            center,
                            half_width: a,
                            half_height: bb,
                            label,
                            color,
                        },
                        p2,
                    ))
                } else if tag == 6 {
                    Some((ShapeKind::Ellipse { center, radius_x: a, radius_y: bb, label, color }, p2))
                } else if tag == 11 {
                    Some((ShapeKind::Hexagon { center, radius_x: a, radius_y: bb, label, color }, p2))
                } else {
                    Some((
                        ShapeKind::Star { center, outer_radius: a, inner_radius: bb, label, color },
                        p2,
                    ))
                }
            },
            None => None,
        }
    } else if tag == 7 {
        let (points, p2) = match read_points(buf, p1) {
            Some(x) => x,
            None => {
                return None;
            },
        };
        let (ch, p3) = match read_char(buf, p2) {
            Some(x) => x,
            None => {
                return None;
            },
        };
        let (label, p4) = match read_opt_text(buf, p3) {
            Some(x) => x,
            None => {
                return None;
            },
        };
        let (color, p5) = match read_color(buf, p4) {
            Some(x) => x,
            None => {
                return None;
            },
        };
        Some((ShapeKind::Freehand { points, ch, label, color }, p5))
    } else if tag == 8 {
        let (pos2, p2) = match read_pos(buf, p1) {
            Some(x) => x,
            None => {
                return None;
            },
        };
        let (content, p3) = match read_text(buf, p2) {
            Some(x) => x,
            None => {
                return None;
            },
        };
        let (color, p4) = match read_color(buf, p3) {
            Some(x) => x,
            None => {
                return None;
            },
        };
        Some((ShapeKind::Text { pos: pos2, content, color }, p4))
    } else if tag == 9 {
        match read_tri_fields(buf, p1) {
            Some(((a, bb, c, label, color), p2)) => Some((
                ShapeKind::Triangle { p1: a, p2: bb, p3: c, label, color },
                p2,
            )),
            None => None,
        }
    } else {
        None
    }
}

} // verus!
