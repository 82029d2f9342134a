use crate::compression::{
    decompress_domain_name, lemma_resolve_wf, lemma_wf_wire_decodes, spec_resolve,
};
use crate::error::DnsError;
use crate::header::{spec_be16, spec_be16_at};
use crate::label::{
    chars_fit, decode_label, encodable, encode_label, lemma_segments_le_mono, segments_le,
    spec_decode_name, spec_encode_name,
};
use vstd::prelude::*;

verus! {

/// One DNS answer (resource record): a name, the record's type and class,
/// its time to live, and a length-prefixed resource-data blob.
#[derive(Debug)]
pub struct DNSAnswer {
    /// The dot-separated domain name the record answers for.
    pub name: String,
    /// The record type (1 for an A record).
    pub record_type: u16,
    /// The record class, in practice always 1 (IN).
    pub class: u16,
    /// How long the record may be cached, in seconds.
    pub ttl: u32,
    /// The declared length of `rdata`; on the wire it precedes the data.
    pub length: u16,
    /// The resource data itself.
    pub rdata: Vec<u8>,
}

/// The mathematical view of an answer.
#[verifier::ext_equal]
pub ghost struct AnswerModel {
    pub name: Seq<char>,
    pub rtype: u16,
    pub class: u16,
    pub ttl: u32,
    pub length: u16,
    pub rdata: Seq<u8>,
}

impl View for DNSAnswer {
    type V = AnswerModel;

    open spec fn view(&self) -> AnswerModel {
        AnswerModel {
            name: self.name@,
            rtype: self.record_type,
            class: self.class,
            ttl: self.ttl,
            length: self.length,
            rdata: self.rdata@,
        }
    }
}

/// The four big-endian bytes of a 32-bit value.
pub open spec fn spec_be32(x: u32) -> Seq<u8> {
    seq![
        (x / 0x1000000) as u8,
        ((x / 0x10000) % 256) as u8,
        ((x / 256) % 256) as u8,
        (x % 256) as u8,
    ]
}

/// The big-endian 32-bit value at offset `i` of `b`.
pub open spec fn spec_be32_at(b: Seq<u8>, i: int) -> u32
    recommends
        0 <= i,
        i + 4 <= b.len(),
{
    ((b[i] as int) * 0x1000000 + (b[i + 1] as int) * 0x10000 + (b[i + 2] as int) * 256 + (b[i
        + 3] as int)) as u32
}

/// The wire bytes of an answer: encoded name, type, class, TTL, declared
/// length, then the resource data.
pub open spec fn spec_answer_bytes(a: AnswerModel) -> Seq<u8> {
    spec_encode_name(a.name) + spec_be16(a.rtype) + spec_be16(a.class) + spec_be32(a.ttl)
        + spec_be16(a.length) + a.rdata
}

/// The answer decoded at `pos` of `msg` (names resolved against all of
/// `msg`), with the position just past it.  The declared resource-data
/// length must not run past the buffer.
pub open spec fn spec_parse_answer(msg: Seq<u8>, pos: int) -> Result<(AnswerModel, int), DnsError> {
    match spec_resolve(msg.skip(pos), msg) {
        Ok(pr) => match spec_decode_name(pr.0) {
            Some(nm) => {
                let p2 = pos + pr.1;
                if p2 + 10 <= msg.len() {
                    let rdlen = spec_be16_at(msg, p2 + 8) as int;
                    if p2 + 10 + rdlen <= msg.len() {
                        Ok(
                            (
                                AnswerModel {
                                    name: nm,
                                    rtype: spec_be16_at(msg, p2),
                                    class: spec_be16_at(msg, p2 + 2),
                                    ttl: spec_be32_at(msg, p2 + 4),
                                    length: spec_be16_at(msg, p2 + 8),
                                    rdata: msg.subrange(p2 + 10, p2 + 10 + rdlen),
                                },
                                p2 + 10 + rdlen,
                            ),
                        )
                    } else {
                        Err(DnsError::TruncatedRecord)
                    }
                } else {
                    Err(DnsError::TruncatedMessage)
                }
            },
            None => Err(DnsError::TruncatedRecord),
        },
        Err(e) => Err(e),
    }
}

impl DNSAnswer {
    /// Serialises the answer: encoded name, type, class, TTL, declared
    /// length, resource data.
    pub fn to_bytes(&self) -> (r: Vec<u8>)
        requires
            encodable(self.name@),
        ensures
            r@ == spec_answer_bytes(self@),
    {
        let mut byte_array = match encode_label(&self.name) {
            Ok(v) => v,
            Err(_) => {
                proof {
                    assert(false);
                }
                Vec::new()
            },
        };
        byte_array.push((self.record_type / 256) as u8);
        byte_array.push((self.record_type % 256) as u8);
        byte_array.push((self.class / 256) as u8);
        byte_array.push((self.class % 256) as u8);
        byte_array.push((self.ttl / 0x1000000) as u8);
        byte_array.push(((self.ttl / 0x10000) % 256) as u8);
        byte_array.push(((self.ttl / 256) % 256) as u8);
        byte_array.push((self.ttl % 256) as u8);
        byte_array.push((self.length / 256) as u8);
        byte_array.push((self.length % 256) as u8);
        byte_array.extend_from_slice(self.rdata.as_slice());
        proof {
            assert(byte_array@ =~= spec_answer_bytes(self@));
        }
        byte_array
    }

    /// Parses the answer at `pos` of `message`, resolving name compression
    /// against the whole of `message`; returns it with the position of the
    /// next field.  Fails with [`DnsError::TruncatedRecord`] when the
    /// declared resource-data length exceeds what remains.
    pub fn from_bytes(message: &[u8], pos: usize) -> (r: Result<(DNSAnswer, usize), DnsError>)
        requires
            pos <= message@.len(),
        ensures
            match r {
                Ok(pr) => spec_parse_answer(message@, pos as int) == Ok::<
                    (AnswerModel, int),
                    DnsError,
                >((pr.0@, pr.1 as int)) && pos < pr.1 <= message@.len(),
                Err(e) => spec_parse_answer(message@, pos as int) == Err::<
                    (AnswerModel, int),
                    DnsError,
                >(e),
            },
    {
        let mlen = message.len();
        let tail = &message[pos..mlen];
        match decompress_domain_name(tail, message) {
            Ok((wire, used)) => {
                proof {
                    crate::compression::lemma_resolve_wf(tail@, message@);
                }
                match decode_label(wire.as_slice()) {
                    Ok(nm) => {
                        let p2 = pos + used;
                        if mlen - p2 >= 10 {
                            let record_type = (message[p2] as u16) * 256 + (message[p2
                                + 1] as u16);
                            let class = (message[p2 + 2] as u16) * 256 + (message[p2
                                + 3] as u16);
                            let ttl = (message[p2 + 4] as u32) * 0x1000000 + (message[p2
                                + 5] as u32) * 0x10000 + (message[p2 + 6] as u32) * 256 + (
                            message[p2 + 7] as u32);
                            let length = (message[p2 + 8] as u16) * 256 + (message[p2
                                + 9] as u16);
                            let rdlen = length as usize;
                            if rdlen <= mlen - (p2 + 10) {
                                let mut rdata: Vec<u8> = Vec::new();
                                rdata.extend_from_slice(&message[p2 + 10..p2 + 10 + rdlen]);
                                proof {
                                    assert(rdata@ =~= message@.subrange(
                                        p2 + 10,
                                        p2 + 10 + rdlen,
                                    ));
                                }
                                Ok(
                                    (
                                        DNSAnswer {
                                            name: nm,
                                            record_type,
                                            class,
                                            ttl,
                                            length,
                                            rdata,
                                        },
                                        p2 + 10 + rdlen,
                                    ),
                                )
                            } else {
                                Err(DnsError::TruncatedRecord)
                            }
                        } else {
                            Err(DnsError::TruncatedMessage)
                        }
                    },
                    Err(e) => Err(e),
                }
            },
            Err(e) => Err(e),
        }
    }
}


/// A successfully parsed answer has a name fit for re-encoding, and its
/// resource data is exactly as long as its declared length.
pub proof fn lemma_parse_answer_props(msg: Seq<u8>, pos: int)
    requires
        0 <= pos,
        spec_parse_answer(msg, pos) is Ok,
    ensures
        chars_fit(spec_parse_answer(msg, pos)->Ok_0.0.name),
        segments_le(spec_parse_answer(msg, pos)->Ok_0.0.name, 191),
        encodable(spec_parse_answer(msg, pos)->Ok_0.0.name),
        spec_parse_answer(msg, pos)->Ok_0.0.rdata.len() == spec_parse_answer(
            msg,
            pos,
        )->Ok_0.0.length,
{
    lemma_resolve_wf(msg.skip(pos), msg);
    let wire = spec_resolve(msg.skip(pos), msg)->Ok_0.0;
    lemma_wf_wire_decodes(wire);
    let nm = spec_parse_answer(msg, pos)->Ok_0.0.name;
    lemma_segments_le_mono(nm, 191, 255);
    let pr = spec_resolve(msg.skip(pos), msg)->Ok_0;
    let p2 = pos + pr.1;
    let rdlen = spec_be16_at(msg, p2 + 8) as int;
    assert(msg.subrange(p2 + 10, p2 + 10 + rdlen).len() == rdlen);
}


/// Four bytes that are the big-endian form of `x` read back as `x`.
pub proof fn lemma_be32_at_of(b: Seq<u8>, i: int, x: u32)
    requires
        0 <= i,
        i + 4 <= b.len(),
        b[i] == spec_be32(x)[0],
        b[i + 1] == spec_be32(x)[1],
        b[i + 2] == spec_be32(x)[2],
        b[i + 3] == spec_be32(x)[3],
    ensures
        spec_be32_at(b, i) == x,
{
}

} // verus!
