use vstd::prelude::*;
use vstd::string::StringSliceAdditionalSpecFns;

use crate::errors::DnsError;
use crate::name::{ascii_seq, decode_name, join, lemma_ascii_valid_utf8, DOT, MAX_JUMPS};

verus! {

/// The index of the first dot in `d`, or `d.len()` when there is none.
pub open spec fn first_dot(d: Seq<u8>) -> int
    decreases d.len(),
{
    if d.len() == 0 {
        0
    } else if d[0] == DOT {
        0
    } else {
        1 + first_dot(d.skip(1))
    }
}

/// Where the first dot is: within bounds, nothing before it is a dot, and
/// it is a dot itself unless the domain has none.
pub proof fn lemma_first_dot(d: Seq<u8>)
    ensures
        0 <= first_dot(d) <= d.len(),
        forall|i: int| 0 <= i < first_dot(d) ==> d[i] != DOT,
        first_dot(d) < d.len() ==> d[first_dot(d)] == DOT,
    decreases d.len(),
{
    if d.len() > 0 && d[0] != DOT {
        lemma_first_dot(d.skip(1));
        assert forall|i: int| 0 <= i < first_dot(d) implies d[i] != DOT by {
            if i > 0 {
                assert(d.skip(1)[i - 1] != DOT);
            }
        }
    }
}

/// The wire encoding of domain `d`: each label as a one-byte length prefix
/// followed by the label's bytes, closed by a zero-length byte.
pub open spec fn encode_domain(d: Seq<u8>) -> Seq<u8>
    decreases d.len(),
    via encode_domain_decreases
{
    let i = first_dot(d);
    if i == d.len() {
        seq![d.len() as u8] + d + seq![0u8]
    } else {
        seq![i as u8] + d.take(i) + encode_domain(d.skip(i + 1))
    }
}

#[via_fn]
proof fn encode_domain_decreases(d: Seq<u8>) {
    lemma_first_dot(d);
}

/// Every label of `d` fits the wire format's 63-byte label limit.
pub open spec fn labels_fit(d: Seq<u8>) -> bool
    decreases d.len(),
    via labels_fit_decreases
{
    let i = first_dot(d);
    if i == d.len() {
        i <= 63
    } else {
        i <= 63 && labels_fit(d.skip(i + 1))
    }
}

#[via_fn]
proof fn labels_fit_decreases(d: Seq<u8>) {
    lemma_first_dot(d);
}

/// Every label of `d` has at least one byte: no leading, trailing or
/// doubled dots.
pub open spec fn labels_nonempty(d: Seq<u8>) -> bool
    decreases d.len(),
    via labels_nonempty_decreases
{
    let i = first_dot(d);
    if i == d.len() {
        i > 0
    } else {
        i > 0 && labels_nonempty(d.skip(i + 1))
    }
}

#[via_fn]
proof fn labels_nonempty_decreases(d: Seq<u8>) {
    lemma_first_dot(d);
}

/// A domain the encoder accepts: at most 255 bytes in all, every label at
/// most 63 bytes.
pub open spec fn valid_domain(d: Seq<u8>) -> bool {
    d.len() <= 255 && labels_fit(d)
}

/// A domain that survives the encode/decode round trip unchanged: valid,
/// ASCII, and with no empty label (an empty label encodes as a zero byte,
/// which the wire format reads as the end of the name).
pub open spec fn well_formed_domain(d: Seq<u8>) -> bool {
    valid_domain(d) && ascii_seq(d) && (d.len() == 0 || labels_nonempty(d))
}

/// The fixed query header: transaction id 0x1234, flags asking for a
/// recursion-desired standard query, one question, no other records.
pub open spec fn query_header() -> Seq<u8> {
    seq![0x12u8, 0x34u8, 0x01u8, 0x00u8, 0u8, 1u8, 0u8, 0u8, 0u8, 0u8, 0u8, 0u8]
}

/// The question's fixed suffix: record type NS (2), class IN (1).
pub open spec fn question_tail() -> Seq<u8> {
    seq![0u8, 2u8, 0u8, 1u8]
}

/// The full wire query for domain `d`: header, encoded name, type, class.
pub open spec fn spec_query(d: Seq<u8>) -> Seq<u8> {
    query_header() + encode_domain(d) + question_tail()
}

/// An encoded domain always takes exactly two bytes more than the domain
/// itself: one length byte per label replaces one dot per label boundary,
/// plus the leading length byte and the terminator.
pub proof fn lemma_encode_len(d: Seq<u8>)
    ensures
        encode_domain(d).len() == d.len() + 2,
    decreases d.len(),
{
    lemma_first_dot(d);
    let i = first_dot(d);
    if i < d.len() {
        lemma_encode_len(d.skip(i + 1));
    }
}

/// One element of a window equality, read at its absolute position.
proof fn lemma_window_elem(buf: Seq<u8>, off: int, win: Seq<u8>, t: int)
    requires
        0 <= off,
        off + win.len() <= buf.len(),
        buf.subrange(off, off + win.len() as int) == win,
        0 <= t < win.len(),
    ensures
        buf[off + t] == win[t],
{
    assert(buf.subrange(off, off + win.len() as int)[t] == buf[off + t]);
}

/// An encoded well-formed domain decodes back to that domain, wherever the
/// encoding sits inside a larger buffer and whatever jump budget is left.
proof fn lemma_decode_encoded_at(buf: Seq<u8>, d: Seq<u8>, off: int, jumps: int)
    requires
        labels_fit(d),
        ascii_seq(d),
        d.len() == 0 || labels_nonempty(d),
        0 <= off,
        off + encode_domain(d).len() <= buf.len(),
        buf.subrange(off, off + encode_domain(d).len() as int) == encode_domain(d),
        0 <= jumps <= MAX_JUMPS,
    ensures
        decode_name(buf, off, jumps) == Ok::<Seq<u8>, DnsError>(d),
    decreases d.len(),
{
    lemma_first_dot(d);
    lemma_encode_len(d);
    let i = first_dot(d);
    let enc = encode_domain(d);
    if i == d.len() {
        assert(enc == seq![d.len() as u8] + d + seq![0u8]);
        lemma_window_elem(buf, off, enc, 0);
        assert((seq![d.len() as u8] + d + seq![0u8])[0] == d.len() as u8);
        if d.len() == 0 {
            assert(buf[off] == 0);
            assert(d =~= Seq::<u8>::empty());
            assert(decode_name(buf, off, jumps) == Ok::<Seq<u8>, DnsError>(d));
        } else {
            let l = d.len() as int;
            assert(buf[off] == l as u8);
            assert forall|t: int| 0 <= t < l implies buf.subrange(off + 1, off + 1 + l)[t]
                == d[t] by {
                lemma_window_elem(buf, off, enc, 1 + t);
                assert((seq![d.len() as u8] + d + seq![0u8])[1 + t] == d[t]);
            }
            assert(buf.subrange(off + 1, off + 1 + l) =~= d);
            lemma_ascii_valid_utf8(d);
            lemma_window_elem(buf, off, enc, 1 + l);
            assert((seq![d.len() as u8] + d + seq![0u8])[1 + l] == 0u8);
            assert(buf[off + 1 + l] == 0);
            assert(decode_name(buf, off + 1 + l, jumps) == Ok::<Seq<u8>, DnsError>(
                Seq::<u8>::empty(),
            ));
            assert(join(d, Seq::<u8>::empty()) =~= d);
            assert(decode_name(buf, off, jumps) == Ok::<Seq<u8>, DnsError>(d));
        }
    } else {
        // One literal label of `i` bytes, then the rest of the domain.
        let rest = d.skip(i + 1);
        lemma_encode_len(rest);
        assert(enc == seq![i as u8] + d.take(i) + encode_domain(rest));
        assert(labels_nonempty(d));
        if rest.len() == 0 {
            assert(labels_nonempty(rest));
            assert(first_dot(rest) == 0);
            assert(false);
        }
        lemma_window_elem(buf, off, enc, 0);
        assert((seq![i as u8] + d.take(i) + encode_domain(rest))[0] == i as u8);
        assert(buf[off] == i as u8);
        assert forall|t: int| 0 <= t < i implies buf.subrange(off + 1, off + 1 + i)[t] == d.take(
            i,
        )[t] by {
            lemma_window_elem(buf, off, enc, 1 + t);
            assert((seq![i as u8] + d.take(i) + encode_domain(rest))[1 + t] == d.take(i)[t]);
        }
        assert(buf.subrange(off + 1, off + 1 + i) =~= d.take(i));
        assert(ascii_seq(d.take(i)));
        lemma_ascii_valid_utf8(d.take(i));
        let rl = encode_domain(rest).len() as int;
        assert forall|t: int| 0 <= t < rl implies buf.subrange(off + 1 + i, off + 1 + i + rl)[t]
            == encode_domain(rest)[t] by {
            lemma_window_elem(buf, off, enc, 1 + i + t);
            assert((seq![i as u8] + d.take(i) + encode_domain(rest))[1 + i + t] == encode_domain(
                rest,
            )[t]);
        }
        assert(buf.subrange(off + 1 + i, off + 1 + i + rl) =~= encode_domain(rest));
        lemma_decode_encoded_at(buf, rest, off + 1 + i, jumps);
        assert(join(d.take(i), rest) =~= d);
        assert(decode_name(buf, off, jumps) == Ok::<Seq<u8>, DnsError>(d));
    }
}

/// Round trip: the query built for a well-formed domain carries that domain
/// in its question section, and decoding the name at the question's offset
/// recovers it exactly, label for label, case preserved.
pub proof fn lemma_query_roundtrip(d: Seq<u8>)
    requires
        well_formed_domain(d),
    ensures
        decode_name(spec_query(d), 12, 0) == Ok::<Seq<u8>, DnsError>(d),
{
    lemma_encode_len(d);
    assert(spec_query(d).subrange(12, 12 + encode_domain(d).len() as int) =~= encode_domain(d));
    lemma_decode_encoded_at(spec_query(d), d, 12, 0);
}

/// Serialize a query for `domain` asking for its NS records: the fixed
/// header, the domain as length-prefixed labels, then type NS, class IN.
/// Domains that break the wire format's limits — a label over 63 bytes, or
/// more than 255 bytes in all — are rejected, never encoded malformed.
pub fn build_dns_query(domain: &str) -> (r: Result<Vec<u8>, DnsError>)
    ensures
        match r {
            Ok(q) => valid_domain(domain.spec_bytes()) && q@ == spec_query(domain.spec_bytes()),
            Err(e) => {
                &&& !valid_domain(domain.spec_bytes())
                &&& (e == DnsError::DomainTooLong <==> domain.spec_bytes().len() > 255)
                &&& (e == DnsError::LabelTooLong <==> domain.spec_bytes().len() <= 255
                    && !labels_fit(domain.spec_bytes()))
                &&& (e == DnsError::DomainTooLong || e == DnsError::LabelTooLong)
            },
        },
{
    let bytes: &[u8] = domain.as_bytes();
    let n = bytes.len();
    let ghost d = domain.spec_bytes();
    if n > 255 {
        return Err(DnsError::DomainTooLong);
    }
    let mut query: Vec<u8> = Vec::new();
    query.push(0x12);
    query.push(0x34);
    query.push(0x01);
    query.push(0x00);
    query.push(0);
    query.push(1);
    query.push(0);
    query.push(0);
    query.push(0);
    query.push(0);
    query.push(0);
    query.push(0);
    proof {
        assert(query@ =~= query_header());
    }
    let mut p: usize = 0;
    proof {
        assert(d.skip(0) =~= d);
    }
    loop
        invariant
            d == domain.spec_bytes(),
            bytes@ == d,
            n == d.len(),
            n <= 255,
            p <= n,
            query@ + encode_domain(d.skip(p as int)) == query_header() + encode_domain(d),
            labels_fit(d) <==> labels_fit(d.skip(p as int)),
        decreases n - p,
    {
        let ghost rem = d.skip(p as int);
        // Scan to the end of the current label.
        let mut j: usize = p;
        while j < n && bytes[j] != DOT
            invariant
                bytes@ == d,
                n == d.len(),
                p <= j <= n,
                forall|i: int| p <= i < j ==> d[i] != DOT,
            decreases n - j,
        {
            j = j + 1;
        }
        proof {
            // The scan found exactly the first dot of the remaining domain.
            lemma_first_dot(rem);
            let fd = first_dot(rem);
            assert forall|i: int| 0 <= i < j - p implies rem[i] != DOT by {
                assert(rem[i] == d[p + i]);
            }
            if fd < j - p {
                assert(rem[fd] == DOT);
            }
            if fd > j - p {
                if j < n {
                    assert(rem[j - p] == d[j as int]);
                    assert(rem[j - p] != DOT);
                }
            }
            assert(fd == j - p);
        }
        if j - p > 63 {
            proof {
                assert(!labels_fit(rem));
            }
            return Err(DnsError::LabelTooLong);
        }
        let ghost base = query@;
        query.push((j - p) as u8);
        let ghost mid = query@;
        let mut k: usize = p;
        while k < j
            invariant
                bytes@ == d,
                n == d.len(),
                p <= k <= j <= n,
                query@ == mid + d.subrange(p as int, k as int),
            decreases j - k,
        {
            query.push(bytes[k]);
            proof {
                assert(query@ =~= mid + d.subrange(p as int, k as int + 1));
            }
            k = k + 1;
        }
        proof {
            assert(d.subrange(p as int, j as int) =~= rem.take(j - p));
        }
        if j == n {
            // Last label: terminator, then the fixed question suffix.
            query.push(0);
            proof {
                assert(first_dot(rem) == rem.len());
                assert(rem.take(j - p) =~= rem);
                assert(query@ =~= base + encode_domain(rem));
            }
            query.push(0);
            query.push(2);
            query.push(0);
            query.push(1);
            proof {
                assert(query@ =~= spec_query(d));
            }
            return Ok(query);
        }
        proof {
            assert(rem.skip(j - p + 1) =~= d.skip(j as int + 1));
            assert(encode_domain(rem) == seq![(j - p) as u8] + rem.take(j - p) + encode_domain(
                rem.skip(j - p + 1),
            ));
            assert(query@ + encode_domain(d.skip(j as int + 1)) =~= base + encode_domain(rem));
            assert(labels_fit(rem) <==> (j - p <= 63 && labels_fit(rem.skip(j - p + 1))));
        }
        p = j + 1;
    }
}

} // verus!
