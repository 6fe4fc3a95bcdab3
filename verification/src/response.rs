use vstd::prelude::*;
use vstd::slice::{slice_subrange, slice_to_vec};

use vstd::utf8::decode_utf8;

use crate::errors::DnsError;
use crate::name::{decode_name, name_end, parse_compressed_name, parse_domain_name};

verus! {

/// A 16-bit big-endian value read from two bytes.
pub open spec fn be16(hi: u8, lo: u8) -> int {
    hi as int * 256 + lo as int
}

/// A 32-bit big-endian value read from four bytes.
pub open spec fn be32(b0: u8, b1: u8, b2: u8, b3: u8) -> int {
    b0 as int * 0x1000000 + b1 as int * 0x10000 + b2 as int * 256 + b3 as int
}

/// The mathematical content of one decoded answer record.
pub ghost struct AnswerData {
    /// The record's owning name, decompressed.
    pub name: Seq<u8>,
    /// The record type code; 2 marks an NS record.
    pub record_type: int,
    /// The class code; 1 is the Internet class.
    pub class: int,
    /// Time to live, in seconds.
    pub ttl: int,
    /// The declared resource-data length.
    pub rd_length: int,
    /// The raw resource-data bytes.
    pub rdata: Seq<u8>,
    /// Where in the response buffer the resource data begins; an NS
    /// record's data is itself a compressed name anchored there.
    pub rdata_offset: int,
}

/// One answer record read at `off`: its content, and the offset just past
/// its resource data, where the next record begins.
pub open spec fn spec_parse_answer(buf: Seq<u8>, off: int) -> Result<(AnswerData, int), DnsError> {
    match decode_name(buf, off, 0) {
        Err(e) => Err(e),
        Ok(nm) => {
            let cur = name_end(buf, off);
            if cur + 10 > buf.len() {
                Err(DnsError::TruncatedMessage)
            } else {
                let rdlen = be16(buf[cur + 8], buf[cur + 9]);
                if cur + 10 + rdlen > buf.len() {
                    Err(DnsError::TruncatedMessage)
                } else {
                    Ok(
                        (
                            AnswerData {
                                name: nm,
                                record_type: be16(buf[cur], buf[cur + 1]),
                                class: be16(buf[cur + 2], buf[cur + 3]),
                                ttl: be32(buf[cur + 4], buf[cur + 5], buf[cur + 6], buf[cur + 7]),
                                rd_length: rdlen,
                                rdata: buf.subrange(cur + 10, cur + 10 + rdlen),
                                rdata_offset: cur + 10,
                            },
                            cur + 10 + rdlen,
                        ),
                    )
                }
            }
        },
    }
}

/// `n` answer records in a row starting at `off`, in wire order.
pub open spec fn spec_parse_answers(buf: Seq<u8>, off: int, n: nat) -> Result<
    Seq<AnswerData>,
    DnsError,
>
    decreases n,
{
    if n == 0 {
        Ok(Seq::empty())
    } else {
        match spec_parse_answer(buf, off) {
            Err(e) => Err(e),
            Ok(p) => match spec_parse_answers(buf, p.1, (n - 1) as nat) {
                Err(e) => Err(e),
                Ok(rest) => Ok(seq![p.0] + rest),
            },
        }
    }
}

/// The declared answer count of a response holding at least a full header.
pub open spec fn spec_ancount(buf: Seq<u8>) -> int {
    be16(buf[6], buf[7])
}

/// The decoded answers of a whole response: a 12-byte header, the single
/// question skipped (its name plus four bytes of type and class), then each
/// declared answer in order. A zero answer count is a valid empty result,
/// not an error.
pub open spec fn spec_parse_response(buf: Seq<u8>) -> Result<Seq<AnswerData>, DnsError> {
    if buf.len() < 12 {
        Err(DnsError::TruncatedMessage)
    } else if spec_ancount(buf) == 0 {
        Ok(Seq::empty())
    } else {
        match decode_name(buf, 12, 0) {
            Err(e) => Err(e),
            Ok(_) => {
                let q_end = name_end(buf, 12);
                if q_end + 4 > buf.len() {
                    Err(DnsError::OffsetOutOfBounds)
                } else {
                    spec_parse_answers(buf, q_end + 4, spec_ancount(buf) as nat)
                }
            },
        }
    }
}

/// The nameserver names of the NS answers among `ms`, in order, each
/// decoded from its resource data against the full buffer; the first
/// failing decode fails the whole extraction.
pub open spec fn spec_collect_ns(buf: Seq<u8>, ms: Seq<AnswerData>) -> Result<
    Seq<Seq<u8>>,
    DnsError,
>
    decreases ms.len(),
{
    if ms.len() == 0 {
        Ok(Seq::empty())
    } else if ms[0].record_type != 2 {
        spec_collect_ns(buf, ms.skip(1))
    } else {
        match decode_name(buf, ms[0].rdata_offset, 0) {
            Err(e) => Err(e),
            Ok(nm) => match spec_collect_ns(buf, ms.skip(1)) {
                Err(e) => Err(e),
                Ok(rest) => Ok(seq![nm] + rest),
            },
        }
    }
}

/// The ordered nameserver names a whole response yields; duplicates are
/// kept, and answers of other record types are passed over.
pub open spec fn spec_nameservers(buf: Seq<u8>) -> Result<Seq<Seq<u8>>, DnsError> {
    match spec_parse_response(buf) {
        Err(e) => Err(e),
        Ok(ms) => spec_collect_ns(buf, ms),
    }
}

/// A response with a whole header that declares zero answers yields the
/// empty record list and the empty nameserver list — a valid negative
/// result, never an error.
pub proof fn lemma_zero_answers(buf: Seq<u8>)
    requires
        buf.len() >= 12,
        spec_ancount(buf) == 0,
    ensures
        spec_parse_response(buf) == Ok::<Seq<AnswerData>, DnsError>(Seq::empty()),
        spec_nameservers(buf) == Ok::<Seq<Seq<u8>>, DnsError>(Seq::empty()),
{
}

/// One decoded answer record. Names are decoded eagerly into owned strings,
/// so no record borrows from the response buffer; only `rdata_offset` still
/// points into it, for resource data that is itself a compressed name.
#[derive(Clone, Debug)]
pub struct DnsAnswer {
    /// The record's owning name, decompressed.
    pub name: String,
    /// The record type code; 2 marks an NS record.
    pub record_type: u16,
    /// The class code; 1 is the Internet class.
    pub class: u16,
    /// Time to live, in seconds.
    pub ttl: u32,
    /// The declared resource-data length.
    pub rd_length: u16,
    /// The raw resource-data bytes.
    pub rdata: Vec<u8>,
    /// Where in the response buffer the resource data begins.
    pub rdata_offset: usize,
}

impl DnsAnswer {
    /// The record carries exactly the decoded content `m`.
    pub open spec fn models(self, m: AnswerData) -> bool {
        &&& self.name@ == decode_utf8(m.name)
        &&& self.record_type as int == m.record_type
        &&& self.class as int == m.class
        &&& self.ttl as int == m.ttl
        &&& self.rd_length as int == m.rd_length
        &&& self.rdata@ == m.rdata
        &&& self.rdata_offset as int == m.rdata_offset
    }

    /// Assemble a record from its decoded parts.
    pub fn new(
        name: String,
        record_type: u16,
        class: u16,
        ttl: u32,
        rd_length: u16,
        rdata: Vec<u8>,
        rdata_offset: usize,
    ) -> (r: DnsAnswer)
        ensures
            r.name == name,
            r.record_type == record_type,
            r.class == class,
            r.ttl == ttl,
            r.rd_length == rd_length,
            r.rdata == rdata,
            r.rdata_offset == rdata_offset,
    {
        DnsAnswer { name, record_type, class, ttl, rd_length, rdata, rdata_offset }
    }

    /// For an NS record, the nameserver name its resource data holds,
    /// decoded against the full response buffer; any other record type is
    /// refused, since its resource data is opaque bytes.
    pub fn name_server(&self, response: &[u8]) -> (r: Result<String, DnsError>)
        ensures
            self.record_type == 2 ==> match r {
                Ok(s) => decode_name(response@, self.rdata_offset as int, 0) matches Ok(d) && s@
                    == decode_utf8(d),
                Err(e) => decode_name(response@, self.rdata_offset as int, 0) == Err::<
                    Seq<u8>,
                    DnsError,
                >(e),
            },
            self.record_type != 2 ==> r == Err::<String, DnsError>(DnsError::NotNameServer),
    {
        if self.record_type == 2 {
            parse_compressed_name(response, self.rdata_offset)
        } else {
            Err(DnsError::NotNameServer)
        }
    }
}

/// Parse a raw response into its answer records: read the header, skip the
/// question, then decode each declared answer with every read bounds-checked.
/// A declared answer count of zero gives an empty record list, not an error.
pub fn parse_dns_response(response: &[u8]) -> (r: Result<Vec<DnsAnswer>, DnsError>)
    ensures
        match r {
            Ok(v) => spec_parse_response(response@) matches Ok(ms) && v@.len() == ms.len() && (
            forall|k: int| 0 <= k < ms.len() ==> #[trigger] v@[k].models(ms[k])),
            Err(e) => spec_parse_response(response@) == Err::<Seq<AnswerData>, DnsError>(e),
        },
{
    let n = response.len();
    if n < 12 {
        return Err(DnsError::TruncatedMessage);
    }
    let ancount: u16 = (response[6] as u16) * 256 + (response[7] as u16);
    let mut answers: Vec<DnsAnswer> = Vec::new();
    if ancount == 0 {
        return Ok(answers);
    }
    let mut offset: usize = 12;
    match parse_domain_name(response, &mut offset) {
        Ok(_) => {},
        Err(e) => {
            return Err(e);
        },
    }
    if n - offset < 4 {
        return Err(DnsError::OffsetOutOfBounds);
    }
    offset = offset + 4;
    let ghost mut done: Seq<AnswerData> = Seq::empty();
    proof {
        assert(spec_parse_response(response@) == spec_parse_answers(
            response@,
            offset as int,
            ancount as nat,
        ));
        let spa = spec_parse_answers(response@, offset as int, ancount as nat);
        if spa is Ok {
            assert(done + spa->Ok_0 =~= spa->Ok_0);
        }
    }
    let mut i: u16 = 0;
    while i < ancount
        invariant
            n == response@.len(),
            i <= ancount,
            offset <= n,
            answers@.len() == done.len(),
            forall|k: int| 0 <= k < done.len() ==> #[trigger] answers@[k].models(done[k]),
            spec_parse_response(response@) == (match spec_parse_answers(
                response@,
                offset as int,
                (ancount - i) as nat,
            ) {
                Ok(rest) => Ok::<Seq<AnswerData>, DnsError>(done + rest),
                Err(e) => Err::<Seq<AnswerData>, DnsError>(e),
            }),
        decreases ancount as int - i as int,
    {
        let ghost off0 = offset as int;
        let ghost n_left = (ancount - i) as nat;
        let name = match parse_domain_name(response, &mut offset) {
            Ok(s) => s,
            Err(e) => {
                return Err(e);
            },
        };
        if n - offset < 10 {
            return Err(DnsError::TruncatedMessage);
        }
        let record_type: u16 = (response[offset] as u16) * 256 + (response[offset + 1] as u16);
        let class: u16 = (response[offset + 2] as u16) * 256 + (response[offset + 3] as u16);
        let ttl: u32 = (response[offset + 4] as u32) * 0x1000000 + (response[offset + 5] as u32)
            * 0x10000 + (response[offset + 6] as u32) * 256 + (response[offset + 7] as u32);
        let rd_length: u16 = (response[offset + 8] as u16) * 256 + (response[offset + 9] as u16);
        if n - (offset + 10) < rd_length as usize {
            return Err(DnsError::TruncatedMessage);
        }
        let rdata_offset = offset + 10;
        let rdata = slice_to_vec(slice_subrange(response, rdata_offset, rdata_offset + rd_length
            as usize));
        offset = rdata_offset + rd_length as usize;
        let ans = DnsAnswer { name, record_type, class, ttl, rd_length, rdata, rdata_offset };
        proof {
            let p = spec_parse_answer(response@, off0)->Ok_0;
            assert(ans.models(p.0));
            assert(p.1 == offset as int);
            let rest_r = spec_parse_answers(response@, offset as int, (n_left - 1) as nat);
            if rest_r is Ok {
                assert(done + (seq![p.0] + rest_r->Ok_0) =~= done.push(p.0) + rest_r->Ok_0);
            }
            done = done.push(p.0);
        }
        answers.push(ans);
        i = i + 1;
    }
    proof {
        assert(done + Seq::<AnswerData>::empty() =~= done);
    }
    Ok(answers)
}

/// The nameserver names of a response: parse it, then decode the resource
/// data of each NS answer, in answer order, keeping duplicates. A response
/// without answers gives an empty list; a malformed one gives the error of
/// the first read that failed.
pub fn get_nameservers(response: &[u8]) -> (r: Result<Vec<String>, DnsError>)
    ensures
        match r {
            Ok(v) => spec_nameservers(response@) matches Ok(names) && v@.len() == names.len() && (
            forall|k: int| 0 <= k < names.len() ==> #[trigger] v@[k]@ == decode_utf8(names[k])),
            Err(e) => spec_nameservers(response@) == Err::<Seq<Seq<u8>>, DnsError>(e),
        },
{
    let answers = match parse_dns_response(response) {
        Ok(a) => a,
        Err(e) => {
            return Err(e);
        },
    };
    let ghost ms = spec_parse_response(response@)->Ok_0;
    let mut out: Vec<String> = Vec::new();
    let ghost mut names_done: Seq<Seq<u8>> = Seq::empty();
    proof {
        assert(ms.skip(0) =~= ms);
        let c = spec_collect_ns(response@, ms);
        if c is Ok {
            assert(names_done + c->Ok_0 =~= c->Ok_0);
        }
    }
    let mut idx: usize = 0;
    while idx < answers.len()
        invariant
            idx <= answers@.len(),
            answers@.len() == ms.len(),
            forall|k: int| 0 <= k < ms.len() ==> #[trigger] answers@[k].models(ms[k]),
            out@.len() == names_done.len(),
            forall|k: int|
                0 <= k < names_done.len() ==> #[trigger] out@[k]@ == decode_utf8(names_done[k]),
            spec_parse_response(response@) == Ok::<Seq<AnswerData>, DnsError>(ms),
            spec_nameservers(response@) == (match spec_collect_ns(
                response@,
                ms.skip(idx as int),
            ) {
                Ok(rest) => Ok::<Seq<Seq<u8>>, DnsError>(names_done + rest),
                Err(e) => Err::<Seq<Seq<u8>>, DnsError>(e),
            }),
        decreases answers@.len() - idx,
    {
        proof {
            assert(answers@[idx as int].models(ms[idx as int]));
            assert(ms.skip(idx as int)[0] == ms[idx as int]);
            assert(ms.skip(idx as int).skip(1) =~= ms.skip(idx as int + 1));
        }
        let a = &answers[idx];
        if a.record_type == 2 {
            match a.name_server(response) {
                Ok(s) => {
                    proof {
                        let d = decode_name(response@, ms[idx as int].rdata_offset, 0)->Ok_0;
                        let rest_r = spec_collect_ns(response@, ms.skip(idx as int + 1));
                        if rest_r is Ok {
                            assert(names_done + (seq![d] + rest_r->Ok_0) =~= names_done.push(d)
                                + rest_r->Ok_0);
                        }
                        names_done = names_done.push(d);
                    }
                    out.push(s);
                },
                Err(e) => {
                    return Err(e);
                },
            }
        }
        idx = idx + 1;
    }
    proof {
        assert(ms.skip(ms.len() as int) =~= Seq::<AnswerData>::empty());
        assert(names_done + Seq::<Seq<u8>>::empty() =~= names_done);
    }
    Ok(out)
}

} // verus!
