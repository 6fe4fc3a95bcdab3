use vstd::prelude::*;
use vstd::slice::slice_subrange;
use vstd::utf8::{
    decode_utf8, encode_utf8, encode_utf8_decode_utf8, encode_utf8_valid_utf8, is_ascii_chars,
    is_ascii_chars_encode_utf8, valid_utf8, valid_utf8_concat,
};

use crate::errors::DnsError;

verus! {

/// The byte of `'.'`, the label separator in presentation form.
pub const DOT: u8 = 46;

/// Most pointer jumps one name may take before decoding fails. Compressed
/// names in hostile messages can form pointer loops; the cap turns such a
/// loop into a decode error instead of an endless walk.
pub const MAX_JUMPS: u32 = 5;

/// A length byte with its top two bits set marks a compression pointer:
/// exactly the byte values 192 and above.
pub const POINTER_TAG: u8 = 192;

/// Every byte is inside the ASCII range.
pub open spec fn ascii_seq(s: Seq<u8>) -> bool {
    forall|i: int| 0 <= i < s.len() ==> s[i] < 128
}

/// The characters of an ASCII byte sequence, one character per byte.
pub open spec fn ascii_chars(s: Seq<u8>) -> Seq<char> {
    s.map(|_i: int, b: u8| b as char)
}

/// ASCII bytes are valid UTF-8 and decode to one character per byte, each
/// the character of that byte's value.
pub proof fn lemma_ascii_valid_utf8(s: Seq<u8>)
    requires
        ascii_seq(s),
    ensures
        valid_utf8(s),
        decode_utf8(s) == ascii_chars(s),
{
    let chars = ascii_chars(s);
    assert(is_ascii_chars(chars));
    is_ascii_chars_encode_utf8(chars);
    assert(encode_utf8(chars) =~= s);
    encode_utf8_valid_utf8(chars);
    encode_utf8_decode_utf8(chars);
}

/// The absolute buffer offset a compression pointer at `off` targets: the
/// low six bits of its first byte, then all eight bits of its second.
pub open spec fn pointer_target(buf: Seq<u8>, off: int) -> int {
    (buf[off] - POINTER_TAG) * 256 + buf[off + 1]
}

/// Two name fragments joined with a dot; an empty fragment disappears.
pub open spec fn join(a: Seq<u8>, b: Seq<u8>) -> Seq<u8> {
    if a.len() == 0 {
        b
    } else if b.len() == 0 {
        a
    } else {
        a + seq![DOT] + b
    }
}

/// The domain name encoded at `off` in `buf`, with `jumps` pointer jumps
/// already taken, as dot-joined label bytes.
///
/// A zero length byte ends the name; a length byte of 192 or above is a
/// compression pointer and decoding continues at its target; any other
/// length byte introduces that many literal label bytes. Every read is
/// bounds-checked, label bytes must be valid UTF-8, and more than `MAX_JUMPS`
/// pointer jumps fail, so decoding is total even on hostile buffers.
pub open spec fn decode_name(buf: Seq<u8>, off: int, jumps: int) -> Result<Seq<u8>, DnsError>
    decreases MAX_JUMPS as int + 1 - jumps, buf.len() - off,
{
    if jumps > MAX_JUMPS {
        Err(DnsError::TooManyJumps)
    } else if off < 0 || off >= buf.len() {
        Err(DnsError::OffsetOutOfBounds)
    } else {
        let len = buf[off] as int;
        if len == 0 {
            Ok(Seq::empty())
        } else if len >= POINTER_TAG {
            if off + 1 >= buf.len() {
                Err(DnsError::InvalidPointer)
            } else {
                decode_name(buf, pointer_target(buf, off), jumps + 1)
            }
        } else if off + 1 + len > buf.len() {
            Err(DnsError::LabelOutOfBounds)
        } else if !valid_utf8(buf.subrange(off + 1, off + 1 + len)) {
            Err(DnsError::InvalidUtf8)
        } else {
            match decode_name(buf, off + 1 + len, jumps) {
                Ok(rest) => Ok(join(buf.subrange(off + 1, off + 1 + len), rest)),
                Err(e) => Err(e),
            }
        }
    }
}

/// The offset of the first byte after the name at `off`: just past the
/// terminating zero byte, or just past the first compression pointer,
/// whichever comes first. Pointer targets are followed for decoding only,
/// never for this outer cursor, so sibling fields keep their places.
/// Meaningful only where `decode_name` succeeds.
pub open spec fn name_end(buf: Seq<u8>, off: int) -> int
    decreases buf.len() - off,
{
    if off < 0 || off >= buf.len() {
        off
    } else {
        let len = buf[off] as int;
        if len == 0 {
            off + 1
        } else if len >= POINTER_TAG {
            off + 2
        } else if off + 1 + len > buf.len() {
            off
        } else {
            name_end(buf, off + 1 + len)
        }
    }
}

/// Joining fragments is associative, whichever of them are empty.
pub proof fn lemma_join_assoc(a: Seq<u8>, b: Seq<u8>, c: Seq<u8>)
    ensures
        join(join(a, b), c) == join(a, join(b, c)),
{
    assert(join(join(a, b), c) =~= join(a, join(b, c)));
}

/// Once more jumps than the cap have been taken, decoding has failed.
pub proof fn lemma_jump_cap(buf: Seq<u8>, off: int, jumps: int)
    requires
        jumps > MAX_JUMPS,
    ensures
        decode_name(buf, off, jumps) == Err::<Seq<u8>, DnsError>(DnsError::TooManyJumps),
{
}

/// A compression pointer that targets itself never decodes, whatever the
/// jump budget left: the walk is cut off at the cap instead of looping.
pub proof fn lemma_pointer_cycle_fails(buf: Seq<u8>, off: int, jumps: int)
    requires
        0 <= jumps,
        0 <= off,
        off + 1 < buf.len(),
        buf[off] >= POINTER_TAG,
        pointer_target(buf, off) == off,
    ensures
        decode_name(buf, off, jumps) == Err::<Seq<u8>, DnsError>(DnsError::TooManyJumps),
    decreases MAX_JUMPS as int + 1 - jumps,
{
    if jumps <= MAX_JUMPS {
        lemma_pointer_cycle_fails(buf, off, jumps + 1);
    }
}

/// A name that decodes with a tighter jump budget decodes to the same bytes
/// with a looser one: earlier jumps taken never change a name that succeeds.
pub proof fn lemma_budget_mono(buf: Seq<u8>, off: int, j1: int, j2: int)
    requires
        0 <= j1 <= j2,
        decode_name(buf, off, j2) matches Ok(_),
    ensures
        decode_name(buf, off, j1) == decode_name(buf, off, j2),
    decreases MAX_JUMPS as int + 1 - j2, buf.len() - off,
{
    let len = buf[off] as int;
    if len == 0 {
    } else if len >= POINTER_TAG {
        lemma_budget_mono(buf, pointer_target(buf, off), j1 + 1, j2 + 1);
    } else {
        lemma_budget_mono(buf, off + 1 + len, j1, j2);
    }
}

/// Reading a name that starts at a compression pointer is exactly reading
/// the name at the pointer's target, with one more jump taken.
pub proof fn lemma_pointer_resolves(buf: Seq<u8>, off: int, jumps: int)
    requires
        0 <= jumps <= MAX_JUMPS,
        0 <= off,
        off + 1 < buf.len(),
        buf[off] >= POINTER_TAG,
    ensures
        decode_name(buf, off, jumps) == decode_name(buf, pointer_target(buf, off), jumps + 1),
{
}

/// A chain of compression pointers resolves to the literal name at its end,
/// independent of the indirection depth, as long as the chain stays within
/// the jump cap. `chain` lists the offsets of the pointers in order; each
/// one targets the next, and the last targets a name that decodes with the
/// whole budget already spent — a purely literal name.
pub proof fn lemma_pointer_chain_resolves(buf: Seq<u8>, chain: Seq<int>, d: Seq<u8>)
    requires
        1 <= chain.len() <= MAX_JUMPS,
        forall|i: int|
            0 <= i < chain.len() ==> 0 <= #[trigger] chain[i] && chain[i] + 1 < buf.len()
                && buf[chain[i]] >= POINTER_TAG,
        forall|i: int|
            0 <= i < chain.len() - 1 ==> pointer_target(buf, #[trigger] chain[i]) == chain[i + 1],
        decode_name(buf, pointer_target(buf, chain[chain.len() - 1]), MAX_JUMPS as int)
            == Ok::<Seq<u8>, DnsError>(d),
    ensures
        decode_name(buf, chain[0], 0) == Ok::<Seq<u8>, DnsError>(d),
{
    lemma_pointer_chain_resolves_from(buf, chain, d, 0);
}

/// The general form of `lemma_pointer_chain_resolves`, with `jumps` pointer
/// jumps already taken before the chain begins.
pub proof fn lemma_pointer_chain_resolves_from(buf: Seq<u8>, chain: Seq<int>, d: Seq<u8>, jumps: int)
    requires
        1 <= chain.len(),
        0 <= jumps,
        jumps + chain.len() <= MAX_JUMPS,
        forall|i: int|
            0 <= i < chain.len() ==> 0 <= #[trigger] chain[i] && chain[i] + 1 < buf.len()
                && buf[chain[i]] >= POINTER_TAG,
        forall|i: int|
            0 <= i < chain.len() - 1 ==> pointer_target(buf, #[trigger] chain[i]) == chain[i + 1],
        decode_name(buf, pointer_target(buf, chain[chain.len() - 1]), MAX_JUMPS as int)
            == Ok::<Seq<u8>, DnsError>(d),
    ensures
        decode_name(buf, chain[0], jumps) == Ok::<Seq<u8>, DnsError>(d),
    decreases chain.len(),
{
    lemma_pointer_resolves(buf, chain[0], jumps);
    if chain.len() == 1 {
        lemma_budget_mono(buf, pointer_target(buf, chain[0]), jumps + 1, MAX_JUMPS as int);
    } else {
        let rest = chain.skip(1);
        assert(rest[rest.len() - 1] == chain[chain.len() - 1]);
        lemma_pointer_chain_resolves_from(buf, rest, d, jumps + 1);
    }
}

/// A label whose declared length runs past the end of the buffer fails
/// decoding instead of reading out of bounds.
pub proof fn lemma_label_overrun_fails(buf: Seq<u8>, off: int, jumps: int)
    requires
        0 <= jumps <= MAX_JUMPS,
        0 <= off < buf.len(),
        0 < buf[off] < POINTER_TAG,
        off + 1 + buf[off] > buf.len(),
    ensures
        decode_name(buf, off, jumps) == Err::<Seq<u8>, DnsError>(DnsError::LabelOutOfBounds),
{
}

/// A name whose offset lies at or past the end of the buffer fails decoding.
pub proof fn lemma_offset_oob_fails(buf: Seq<u8>, off: int, jumps: int)
    requires
        jumps <= MAX_JUMPS,
        off >= buf.len(),
    ensures
        decode_name(buf, off, jumps) == Err::<Seq<u8>, DnsError>(DnsError::OffsetOutOfBounds),
{
}

/// A compression pointer whose second byte would lie past the end of the
/// buffer fails decoding.
pub proof fn lemma_truncated_pointer_fails(buf: Seq<u8>, off: int, jumps: int)
    requires
        0 <= jumps <= MAX_JUMPS,
        0 <= off < buf.len(),
        buf[off] >= POINTER_TAG,
        off + 1 >= buf.len(),
    ensures
        decode_name(buf, off, jumps) == Err::<Seq<u8>, DnsError>(DnsError::InvalidPointer),
{
}

/// Relies on `str::from_utf8`: it accepts exactly the valid UTF-8 byte
/// sequences.
#[verifier::external_body]
fn utf8_check(bytes: &[u8]) -> (r: bool)
    ensures
        r == valid_utf8(bytes@),
{
    std::str::from_utf8(bytes).is_ok()
}

/// Relies on `String::from_utf8`: valid UTF-8 bytes decode to exactly the
/// characters of their scalar values.
#[verifier::external_body]
fn utf8_to_string(bytes: Vec<u8>) -> (r: String)
    requires
        valid_utf8(bytes@),
    ensures
        r@ == decode_utf8(bytes@),
{
    match String::from_utf8(bytes) {
        Ok(s) => s,
        Err(_) => String::new(),
    }
}

/// Decode the name at `offset` and also report where the name's wire bytes
/// end: past the terminating zero, or past the first pointer if the name is
/// compressed. The workhorse behind both public name parsers.
fn parse_name_at(response: &[u8], offset: usize) -> (r: Result<(String, usize), DnsError>)
    ensures
        match r {
            Ok(p) => {
                &&& decode_name(response@, offset as int, 0) matches Ok(d) && p.0@ == decode_utf8(
                    d,
                )
                &&& p.1 as int == name_end(response@, offset as int)
                &&& offset < p.1 <= response@.len()
            },
            Err(e) => decode_name(response@, offset as int, 0) == Err::<Seq<u8>, DnsError>(e),
        },
{
    let n = response.len();
    let mut name: Vec<u8> = Vec::new();
    let mut local: usize = offset;
    let mut jumps: u32 = 0;
    let mut jumped: bool = false;
    let mut cursor: usize = 0;
    loop
        invariant
            n == response@.len(),
            valid_utf8(name@),
            jumps <= MAX_JUMPS + 1,
            decode_name(response@, offset as int, 0) == (match decode_name(
                response@,
                local as int,
                jumps as int,
            ) {
                Ok(rest) => Ok::<Seq<u8>, DnsError>(join(name@, rest)),
                Err(e) => Err::<Seq<u8>, DnsError>(e),
            }),
            !jumped ==> jumps == 0 && offset <= local && name_end(response@, offset as int)
                == name_end(response@, local as int),
            jumped ==> offset < cursor && cursor <= response@.len() && cursor as int == name_end(
                response@,
                offset as int,
            ),
        decreases MAX_JUMPS as int + 1 - jumps, response@.len() - local,
    {
        if jumps > MAX_JUMPS {
            return Err(DnsError::TooManyJumps);
        }
        if local >= response.len() {
            return Err(DnsError::OffsetOutOfBounds);
        }
        let len_byte = response[local];
        if len_byte == 0 {
            let end = if jumped {
                cursor
            } else {
                local + 1
            };
            proof {
                assert(join(name@, Seq::<u8>::empty()) =~= name@);
            }
            return Ok((utf8_to_string(name), end));
        }
        if len_byte >= POINTER_TAG {
            if local + 1 >= response.len() {
                return Err(DnsError::InvalidPointer);
            }
            if !jumped {
                cursor = local + 2;
                jumped = true;
            }
            let target: usize = ((len_byte - POINTER_TAG) as usize) * 256 + (response[local + 1]
                as usize);
            proof {
                assert(target as int == pointer_target(response@, local as int));
                assert(decode_name(response@, local as int, jumps as int) == decode_name(
                    response@,
                    target as int,
                    jumps as int + 1,
                ));
            }
            local = target;
            jumps = jumps + 1;
        } else {
            let lab_len = len_byte as usize;
            if response.len() - (local + 1) < lab_len {
                return Err(DnsError::LabelOutOfBounds);
            }
            let label_bytes = slice_subrange(response, local + 1, local + 1 + lab_len);
            if !utf8_check(label_bytes) {
                return Err(DnsError::InvalidUtf8);
            }
            let ghost prev = name@;
            let ghost label = response@.subrange(local as int + 1, local as int + 1 + lab_len as int);
            if name.len() > 0 {
                name.push(DOT);
            }
            name.extend_from_slice(label_bytes);
            proof {
                let pre = if prev.len() == 0 {
                    prev
                } else {
                    prev + seq![DOT]
                };
                assert(name@ =~= pre + label);
                assert(name@ =~= join(prev, label));
                // The joined fragment stays valid UTF-8: both sides are
                // valid and the separating dot is a lone ASCII byte.
                lemma_ascii_valid_utf8(seq![DOT]);
                valid_utf8_concat(prev, seq![DOT]);
                valid_utf8_concat(pre, label);
                assert(valid_utf8(name@));
                // The goal steps from `local` to the byte after the label.
                let next = decode_name(
                    response@,
                    local as int + 1 + lab_len as int,
                    jumps as int,
                );
                if next is Ok {
                    lemma_join_assoc(prev, label, next->Ok_0);
                }
            }
            local = local + 1 + lab_len;
        }
    }
}

/// Decode the (possibly compressed) domain name anchored at `offset`,
/// against the full response buffer. NS resource data is itself such a
/// name, so this also serves to read a nameserver name out of an answer.
pub fn parse_compressed_name(response: &[u8], offset: usize) -> (r: Result<String, DnsError>)
    ensures
        match r {
            Ok(s) => decode_name(response@, offset as int, 0) matches Ok(d) && s@ == decode_utf8(d),
            Err(e) => decode_name(response@, offset as int, 0) == Err::<Seq<u8>, DnsError>(e),
        },
{
    match parse_name_at(response, offset) {
        Ok((s, _)) => Ok(s),
        Err(e) => Err(e),
    }
}

/// Decode the domain name at `*offset` and advance the cursor past the
/// name's wire bytes: past the terminating zero, or past the first pointer
/// if the name is compressed — jump targets are followed for decoding only.
/// On failure the cursor stays put.
pub fn parse_domain_name(response: &[u8], offset: &mut usize) -> (r: Result<String, DnsError>)
    ensures
        match r {
            Ok(s) => {
                &&& decode_name(response@, *old(offset) as int, 0) matches Ok(d) && s@
                    == decode_utf8(d)
                &&& *final(offset) as int == name_end(response@, *old(offset) as int)
                &&& *old(offset) < *final(offset) <= response@.len()
            },
            Err(e) => decode_name(response@, *old(offset) as int, 0) == Err::<Seq<u8>, DnsError>(e)
                && *final(offset) == *old(offset),
        },
{
    match parse_name_at(response, *offset) {
        Ok((s, end)) => {
            *offset = end;
            Ok(s)
        },
        Err(e) => Err(e),
    }
}

} // verus!
