use crate::compression::{
    decompress_domain_name, lemma_resolve_wf, lemma_wf_wire_decodes, spec_resolve,
};
use crate::error::DnsError;
use crate::header::{spec_be16, spec_be16_at};
use crate::label::{
    chars_fit, decode_label, encodable, encode_label, lemma_segments_le_mono, segments_le,
    spec_decode_name, spec_encode_name,
};
use vstd::prelude::*;

verus! {

/// One DNS question: a domain name with the queried record type and class.
#[derive(Debug)]
pub struct DNSQuestion {
    /// The dot-separated domain name, without trailing dot.
    pub domain_name: String,
    /// The record type asked for (1 for an A record, 5 for a CNAME, ...).
    pub query_type: u16,
    /// The class asked for, in practice always 1 (IN).
    pub query_class: u16,
}

/// The mathematical view of a question.
#[verifier::ext_equal]
pub ghost struct QuestionModel {
    pub name: Seq<char>,
    pub qtype: u16,
    pub qclass: u16,
}

impl View for DNSQuestion {
    type V = QuestionModel;

    open spec fn view(&self) -> QuestionModel {
        QuestionModel { name: self.domain_name@, qtype: self.query_type, qclass: self.query_class }
    }
}

/// The wire bytes of a question: the encoded name, then type and class,
/// big-endian.
pub open spec fn spec_question_bytes(q: QuestionModel) -> Seq<u8> {
    spec_encode_name(q.name) + spec_be16(q.qtype) + spec_be16(q.qclass)
}

/// The question decoded at `pos` of `msg` (names resolved against all of
/// `msg`), with the position just past it.
pub open spec fn spec_parse_question(msg: Seq<u8>, pos: int) -> Result<
    (QuestionModel, int),
    DnsError,
> {
    match spec_resolve(msg.skip(pos), msg) {
        Ok(pr) => match spec_decode_name(pr.0) {
            Some(nm) => {
                let p2 = pos + pr.1;
                if p2 + 4 <= msg.len() {
                    Ok(
                        (
                            QuestionModel {
                                name: nm,
                                qtype: spec_be16_at(msg, p2),
                                qclass: spec_be16_at(msg, p2 + 2),
                            },
                            p2 + 4,
                        ),
                    )
                } else {
                    Err(DnsError::TruncatedMessage)
                }
            },
            None => Err(DnsError::TruncatedRecord),
        },
        Err(e) => Err(e),
    }
}

impl DNSQuestion {
    /// Serialises the question: encoded name, type, class.
    pub fn to_bytes(&self) -> (r: Vec<u8>)
        requires
            encodable(self.domain_name@),
        ensures
            r@ == spec_question_bytes(self@),
    {
        let mut byte_array = match encode_label(&self.domain_name) {
            Ok(v) => v,
            Err(_) => {
                proof {
                    assert(false);
                }
                Vec::new()
            },
        };
        byte_array.push((self.query_type / 256) as u8);
        byte_array.push((self.query_type % 256) as u8);
        byte_array.push((self.query_class / 256) as u8);
        byte_array.push((self.query_class % 256) as u8);
        proof {
            assert(byte_array@ =~= spec_question_bytes(self@));
        }
        byte_array
    }

    /// Parses the question at `pos` of `message`, resolving name compression
    /// against the whole of `message`; returns it with the position of the
    /// next field.
    pub fn from_bytes(message: &[u8], pos: usize) -> (r: Result<(DNSQuestion, usize), DnsError>)
        requires
            pos <= message@.len(),
        ensures
            match r {
                Ok(pr) => spec_parse_question(message@, pos as int) == Ok::<
                    (QuestionModel, int),
                    DnsError,
                >((pr.0@, pr.1 as int)) && pos < pr.1 <= message@.len(),
                Err(e) => spec_parse_question(message@, pos as int) == Err::<
                    (QuestionModel, int),
                    DnsError,
                >(e),
            },
    {
        let mlen = message.len();
        let tail = &message[pos..mlen];
        match decompress_domain_name(tail, message) {
            Ok((wire, used)) => {
                proof {
                    crate::compression::lemma_resolve_wf(tail@, message@);
                }
                match decode_label(wire.as_slice()) {
                    Ok(nm) => {
                        let p2 = pos + used;
                        if mlen - p2 >= 4 {
                            let qtype = (message[p2] as u16) * 256 + (message[p2 + 1] as u16);
                            let qclass = (message[p2 + 2] as u16) * 256 + (message[p2
                                + 3] as u16);
                            Ok(
                                (
                                    DNSQuestion {
                                        domain_name: nm,
                                        query_type: qtype,
                                        query_class: qclass,
                                    },
                                    p2 + 4,
                                ),
                            )
                        } else {
                            Err(DnsError::TruncatedMessage)
                        }
                    },
                    Err(e) => Err(e),
                }
            },
            Err(e) => Err(e),
        }
    }
}


/// A successfully parsed question's name is fit for re-encoding: its
/// characters fit a byte and its segments are at most 191 characters.
pub proof fn lemma_parse_question_name(msg: Seq<u8>, pos: int)
    requires
        0 <= pos,
        spec_parse_question(msg, pos) is Ok,
    ensures
        chars_fit(spec_parse_question(msg, pos)->Ok_0.0.name),
        segments_le(spec_parse_question(msg, pos)->Ok_0.0.name, 191),
        encodable(spec_parse_question(msg, pos)->Ok_0.0.name),
{
    lemma_resolve_wf(msg.skip(pos), msg);
    let wire = spec_resolve(msg.skip(pos), msg)->Ok_0.0;
    lemma_wf_wire_decodes(wire);
    let nm = spec_parse_question(msg, pos)->Ok_0.0.name;
    lemma_segments_le_mono(nm, 191, 255);
}

} // verus!
