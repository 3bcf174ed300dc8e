//! Session tickets: the shareable string that encodes a peer's address.
//!
//! A structured ticket is a fixed prefix followed by the base32 encoding
//! of opaque address bytes.  For backward compatibility the decoder also
//! accepts a bare legacy peer identifier: 64 hexadecimal digits naming a
//! 32-byte key.

use vstd::prelude::*;

use vstd::string::StrSliceExecFns;
use vstd::string::StringExecFns;

verus! {

/// The prefix that marks a structured ticket.
pub open spec fn ticket_prefix() -> Seq<char> {
    "irohscii1"@
}

/// What base32 encoding makes of a byte string.
/// The encoding is a function of the bytes alone.
pub uninterp spec fn base32_of(b: Seq<u8>) -> Seq<char>;

/// Relies on data_encoding::BASE32_NOPAD.encode: unpadded RFC 4648
/// base32 of the input, a pure function of the bytes; decoding the
/// result gives the input back.  The length bound keeps the call within
/// the library's documented no-panic range on 32-bit targets too.
#[verifier::external_body]
fn base32_encode(b: &Vec<u8>) -> (r: String)
    requires
        b@.len() < 0x10_0000,
    ensures
        r@ == base32_of(b@),
        base32_decodes_to(r@) == Some(b@),
{
    data_encoding::BASE32_NOPAD.encode(b.as_slice())
}

/// What base32 decoding makes of a text: the bytes it canonically
/// encodes, or nothing.
pub uninterp spec fn base32_decodes_to(s: Seq<char>) -> Option<Seq<u8>>;

/// Relies on data_encoding::BASE32_NOPAD.decode: succeeds exactly on
/// valid unpadded base32 and returns the encoded bytes.
#[verifier::external_body]
fn base32_decode(s: &str) -> (r: Option<Vec<u8>>)
    ensures
        match r {
            Some(b) => base32_decodes_to(s@) == Some(b@),
            None => base32_decodes_to(s@) is None,
        },
{
    match data_encoding::BASE32_NOPAD.decode(s.as_bytes()) {
        Ok(v) => Some(v),
        Err(_) => None,
    }
}

/// The decoded meaning of a ticket string.
pub open spec fn ticket_addr(s: Seq<char>) -> Option<Seq<u8>> {
    if s.len() >= ticket_prefix().len() && s.subrange(0, ticket_prefix().len() as int)
        == ticket_prefix() {
        base32_decodes_to(s.skip(ticket_prefix().len() as int))
    } else {
        legacy_hex(s)
    }
}

/// The value of a hexadecimal digit.
pub open spec fn hex_val(c: char) -> Option<u8> {
    if '0' <= c && c <= '9' {
        Some((c as u32 - '0' as u32) as u8)
    } else if 'a' <= c && c <= 'f' {
        Some((c as u32 - 'a' as u32 + 10) as u8)
    } else if 'A' <= c && c <= 'F' {
        Some((c as u32 - 'A' as u32 + 10) as u8)
    } else {
        None
    }
}

/// A bare legacy peer identifier: exactly 64 hex digits naming 32 bytes.
pub open spec fn legacy_hex(s: Seq<char>) -> Option<Seq<u8>> {
    if s.len() == 64 && (forall|i: int| 0 <= i < 64 ==> hex_val(#[trigger] s[i]) is Some) {
        Some(
            Seq::new(
                32,
                |i: int| (hex_val(s[2 * i])->0 * 16 + hex_val(s[2 * i + 1])->0) as u8,
            ),
        )
    } else {
        None
    }
}

/// Encode address bytes as a shareable ticket string.  The second
/// clause records that the payload decodes back, so a caller can chain
/// `lemma_ticket_roundtrip` and conclude that decoding the ticket gives
/// the address back.
pub fn encode_ticket(addr: &Vec<u8>) -> (r: String)
    requires
        addr@.len() < 0x10_0000,
    ensures
        r@ == ticket_prefix() + base32_of(addr@),
        base32_decodes_to(base32_of(addr@)) == Some(addr@),
{
    let mut out = String::from_str("irohscii1");
    let enc = base32_encode(addr);
    out.append(enc.as_str());
    proof {
        reveal_strlit("irohscii1");
    }
    out
}

/// The value of one hex digit.
fn hex_digit(c: char) -> (r: Option<u8>)
    ensures
        r == hex_val(c),
{
    let v = c as u32;
    if v >= '0' as u32 && v <= '9' as u32 {
        Some((v - '0' as u32) as u8)
    } else if v >= 'a' as u32 && v <= 'f' as u32 {
        Some((v - 'a' as u32 + 10) as u8)
    } else if v >= 'A' as u32 && v <= 'F' as u32 {
        Some((v - 'A' as u32 + 10) as u8)
    } else {
        None
    }
}

/// Decide whether the text starts with the structured-ticket prefix.
fn has_ticket_prefix(ticket: &str) -> (r: bool)
    ensures
        r == (ticket@.len() >= 9 && ticket@.subrange(0, 9) == ticket_prefix()),
{
    proof {
        reveal_strlit("irohscii1");
    }
    let n = ticket.unicode_len();
    if n < 9 {
        return false;
    }
    let probe = "irohscii1";
    let mut matched = true;
    let mut i: usize = 0;
    while i < 9
        invariant
            i <= 9,
            n == ticket@.len(),
            n >= 9,
            probe@ == ticket_prefix(),
            probe@.len() == 9,
            matched == (forall|j: int| 0 <= j < i ==> ticket@[j] == probe@[j]),
        decreases 9 - i,
    {
        let same = ticket.get_char(i) == probe.get_char(i);
        proof {
            if matched && same {
                assert forall|j: int| 0 <= j < i + 1 implies ticket@[j] == probe@[j] by {}
            }
            if !same {
                assert(ticket@[i as int] != probe@[i as int]);
            }
        }
        matched = matched && same;
        i = i + 1;
    }
    proof {
        if matched {
            assert(ticket@.subrange(0, 9) =~= ticket_prefix());
        } else {
            let j = choose|j: int| 0 <= j < 9 && ticket@[j] != probe@[j];
            assert(ticket@.subrange(0, 9)[j] == ticket@[j]);
        }
    }
    matched
}

/// Decode a ticket string: a structured ticket's payload, or the 32
/// bytes a bare legacy identifier names.  `None` exactly when the text
/// is neither.
pub fn decode_ticket(ticket: &str) -> (r: Option<Vec<u8>>)
    ensures
        match r {
            Some(b) => ticket_addr(ticket@) == Some(b@),
            None => ticket_addr(ticket@) is None,
        },
{
    proof {
        reveal_strlit("irohscii1");
    }
    let n = ticket.unicode_len();
    if has_ticket_prefix(ticket) {
        let tail = ticket.substring_char(9, n);
        proof {
            assert(tail@ =~= ticket@.skip(9));
        }
        base32_decode(tail)
    } else {
        // A bare legacy peer identifier: 64 hex digits.
        if n != 64 {
            return None;
        }
        let mut out: Vec<u8> = Vec::new();
        let mut i: usize = 0;
        while i < 32
            invariant
                i <= 32,
                n == ticket@.len(),
                ticket@.len() == 64,
                !(ticket@.len() >= 9 && ticket@.subrange(0, 9) == ticket_prefix()),
                out@.len() == i,
                forall|j: int|
                    0 <= j < 2 * i ==> hex_val(#[trigger] ticket@[j]) is Some,
                forall|j: int|
                    0 <= j < i ==> out@[j] == (hex_val(ticket@[2 * j])->0 * 16 + hex_val(
                        ticket@[2 * j + 1],
                    )->0) as u8,
            decreases 32 - i,
        {
            let hi = match hex_digit(ticket.get_char(2 * i)) {
                Some(v) => v,
                None => {
                    proof {
                        reveal_strlit("irohscii1");
                        assert(hex_val(ticket@[2 * (i as int)]) is None);
                        assert(0 <= 2 * (i as int) < 64);
                        assert(!(forall|j: int|
                            0 <= j < 64 ==> hex_val(#[trigger] ticket@[j]) is Some));
                        assert(legacy_hex(ticket@) is None);
                        assert(ticket_addr(ticket@) is None);
                    }
                    return None;
                },
            };
            let lo = match hex_digit(ticket.get_char(2 * i + 1)) {
                Some(v) => v,
                None => {
                    proof {
                        reveal_strlit("irohscii1");
                        assert(hex_val(ticket@[2 * (i as int) + 1]) is None);
                        assert(0 <= 2 * (i as int) + 1 < 64);
                        assert(!(forall|j: int|
                            0 <= j < 64 ==> hex_val(#[trigger] ticket@[j]) is Some));
                        assert(legacy_hex(ticket@) is None);
                        assert(ticket_addr(ticket@) is None);
                    }
                    return None;
                },
            };
            out.push(hi * 16 + lo);
            proof {
                assert forall|j: int| 0 <= j < 2 * (i + 1) implies hex_val(
                    #[trigger] ticket@[j],
                ) is Some by {
                    if j == 2 * i {
                    } else if j == 2 * i + 1 {
                    }
                }
            }
            i = i + 1;
        }
        proof {
            assert(legacy_hex(ticket@) == Some(out@)) by {
                assert forall|j: int| 0 <= j < 64 implies hex_val(#[trigger] ticket@[j])
                    is Some by {}
                assert(out@ =~= Seq::new(
                    32,
                    |i2: int| (hex_val(ticket@[2 * i2])->0 * 16 + hex_val(
                        ticket@[2 * i2 + 1],
                    )->0) as u8,
                ));
            }
        }
        Some(out)
    }
}

/// A structured ticket decodes back to the address it encodes.
pub proof fn lemma_ticket_roundtrip(addr: Seq<u8>)
    requires
        base32_decodes_to(base32_of(addr)) == Some(addr),
    ensures
        ticket_addr(ticket_prefix() + base32_of(addr)) == Some(addr),
{
    let s = ticket_prefix() + base32_of(addr);
    assert(s.subrange(0, ticket_prefix().len() as int) =~= ticket_prefix());
    assert(s.skip(ticket_prefix().len() as int) =~= base32_of(addr));
}

} // verus!
