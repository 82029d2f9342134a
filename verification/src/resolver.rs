use crate::answer::{AnswerModel, DNSAnswer};
use crate::body::{
    answer_views, lemma_parse_body_props, parse_body, question_views, spec_body_bytes,
    spec_parse_body, BodyModel, DNSBody,
};
use crate::error::DnsError;
use crate::header::DNSHeader;
use crate::question::{DNSQuestion, QuestionModel};
use vstd::prelude::*;

verus! {

/// The stub answer synthesised for a question when no upstream resolver is
/// configured: the question's own name, type A, class IN, a TTL of 60
/// seconds, and the fixed placeholder address 8.8.8.8.
pub open spec fn spec_stub_answer(q: QuestionModel) -> AnswerModel {
    AnswerModel {
        name: q.name,
        rtype: 1,
        class: 1,
        ttl: 60,
        length: 4,
        rdata: seq![8u8, 8u8, 8u8, 8u8],
    }
}

/// Builds the stub answer for one question.
pub fn build_answer(question: &DNSQuestion) -> (r: DNSAnswer)
    ensures
        r@ == spec_stub_answer(question@),
{
    let mut rdata: Vec<u8> = Vec::new();
    rdata.push(8);
    rdata.push(8);
    rdata.push(8);
    rdata.push(8);
    let r = DNSAnswer {
        name: question.domain_name.clone(),
        record_type: 1,
        class: 1,
        ttl: 60,
        length: 4,
        rdata,
    };
    proof {
        assert(r@.rdata =~= spec_stub_answer(question@).rdata);
        assert(r@ =~= spec_stub_answer(question@));
    }
    r
}

/// One stub answer per question, in question order; the no-relay fallback
/// does exactly this and no network I/O.
pub fn build_stub_answers(questions: &Vec<DNSQuestion>) -> (r: Vec<DNSAnswer>)
    ensures
        r@.len() == questions@.len(),
        forall|i: int|
            0 <= i < r@.len() ==> (#[trigger] r@[i])@ == spec_stub_answer(questions@[i]@),
{
    let mut answers: Vec<DNSAnswer> = Vec::new();
    let mut i: usize = 0;
    while i < questions.len()
        invariant
            i <= questions@.len(),
            answers@.len() == i,
            forall|k: int|
                0 <= k < i ==> (#[trigger] answers@[k])@ == spec_stub_answer(questions@[k]@),
        decreases questions@.len() - i,
    {
        let a = build_answer(&questions[i]);
        answers.push(a);
        i += 1;
    }
    answers
}

/// The header of a response: the request's fields kept (id, opcode, rd and
/// the rest), `qr` set to mark a reply, `rcode` 0 for a standard query and 4
/// ("not implemented") for any other opcode, and `ancount` set to the number
/// of answers being returned.
pub open spec fn spec_response_header(req: DNSHeader, answer_count: u16) -> DNSHeader {
    DNSHeader {
        qr: 1,
        rcode: if req.opcode == 0 {
            0
        } else {
            4
        },
        ancount: answer_count,
        ..req
    }
}

/// Builds the response header from the request's.
pub fn build_response_header(request_header: &DNSHeader, answer_count: u16) -> (r: DNSHeader)
    ensures
        r == spec_response_header(*request_header, answer_count),
        request_header.wf() ==> r.wf(),
{
    DNSHeader {
        qr: 1,
        rcode: if request_header.opcode == 0 {
            0
        } else {
            4
        },
        ancount: answer_count,
        ..*request_header
    }
}

/// Splits a request into its sub-queries: one single-question message per
/// question, each carrying the request's header with `qdcount` forced to 1,
/// `ancount` forced to 0, and an empty answer section.  In forwarding mode
/// each sub-query is sent upstream on its own.
pub fn split_into_subqueries(request: &DNSBody) -> (r: Vec<DNSBody>)
    ensures
        r@.len() == request.questions@.len(),
        forall|i: int|
            0 <= i < r@.len() ==> (#[trigger] r@[i])@ == (BodyModel {
                header: DNSHeader { qdcount: 1, ancount: 0, ..request.header },
                questions: seq![request.questions@[i]@],
                answers: Seq::empty(),
            }),
{
    let mut subs: Vec<DNSBody> = Vec::new();
    let mut i: usize = 0;
    while i < request.questions.len()
        invariant
            i <= request.questions@.len(),
            subs@.len() == i,
            forall|k: int|
                0 <= k < i ==> (#[trigger] subs@[k])@ == (BodyModel {
                    header: DNSHeader { qdcount: 1, ancount: 0, ..request.header },
                    questions: seq![request.questions@[k]@],
                    answers: Seq::empty(),
                }),
        decreases request.questions@.len() - i,
    {
        let q = DNSQuestion {
            domain_name: request.questions[i].domain_name.clone(),
            query_type: request.questions[i].query_type,
            query_class: request.questions[i].query_class,
        };
        let mut qs: Vec<DNSQuestion> = Vec::new();
        qs.push(q);
        let sub = DNSBody {
            header: DNSHeader { qdcount: 1, ancount: 0, ..request.header },
            questions: qs,
            answers: Vec::new(),
        };
        proof {
            assert(sub@.questions =~= seq![request.questions@[i as int]@]);
            assert(sub@.answers =~= Seq::<AnswerModel>::empty());
        }
        subs.push(sub);
        i += 1;
    }
    subs
}

/// Decodes one upstream reply and keeps only its answer section.  A reply
/// that does not parse as a DNS message is reported as
/// [`DnsError::UpstreamDecodeError`]; the caller skips that sub-query and
/// carries on, so one bad reply only shrinks the final answer count.
pub fn decode_upstream_reply(reply: &[u8]) -> (r: Result<Vec<DNSAnswer>, DnsError>)
    ensures
        match r {
            Ok(ans) => spec_parse_body(reply@) is Ok && answer_views(ans@) == spec_parse_body(
                reply@,
            )->Ok_0.answers,
            Err(e) => spec_parse_body(reply@) is Err && e == DnsError::UpstreamDecodeError,
        },
{
    match parse_body(reply) {
        Ok(b) => Ok(b.answers),
        Err(_) => Err(DnsError::UpstreamDecodeError),
    }
}

/// Merges a response: the response header derived from the request's with
/// `ancount` set to the collected answers, the request's own questions, and
/// those answers.
pub fn build_response(request: DNSBody, answers: Vec<DNSAnswer>) -> (r: DNSBody)
    requires
        answers@.len() <= u16::MAX,
    ensures
        r@.header == spec_response_header(request.header, answers@.len() as u16),
        r@.questions == request@.questions,
        r@.answers == answer_views(answers@),
{
    let n = answers.len() as u16;
    DNSBody {
        header: build_response_header(&request.header, n),
        questions: request.questions,
        answers,
    }
}

/// The complete no-upstream exchange, as a function of the parsed request:
/// the response header, the request's questions, and one stub answer per
/// question.
pub open spec fn spec_local_response(m: BodyModel) -> BodyModel {
    BodyModel {
        header: spec_response_header(m.header, m.questions.len() as u16),
        questions: m.questions,
        answers: m.questions.map_values(|q: QuestionModel| spec_stub_answer(q)),
    }
}

/// Handles one datagram in stub (no-upstream) mode: parse the query, answer
/// every question with the stub answer, and serialise the response.  Parse
/// errors pass through unchanged; the caller drops the datagram on error.
pub fn handle_datagram(data: &[u8]) -> (r: Result<Vec<u8>, DnsError>)
    ensures
        match r {
            Ok(out) => spec_parse_body(data@) is Ok && out@ == spec_body_bytes(
                spec_local_response(spec_parse_body(data@)->Ok_0),
            ),
            Err(e) => spec_parse_body(data@) == Err::<BodyModel, DnsError>(e),
        },
{
    match parse_body(data) {
        Ok(b) => {
            proof {
                lemma_parse_body_props(data@, b@);
            }
            let ghost m = spec_parse_body(data@)->Ok_0;
            let ghost req_q = b.questions@;
            let ghost req_h = b.header;
            let answers = build_stub_answers(&b.questions);
            let ghost ans_seq = answers@;
            proof {
                assert(answers@.len() == m.questions.len());
            }
            let resp = build_response(b, answers);
            proof {
                assert(question_views(resp.questions@) == question_views(req_q));
                assert(answer_views(resp.answers@) == answer_views(ans_seq));
                assert(m.questions == question_views(req_q));
                assert(answer_views(resp.answers@).len() == resp.answers@.len());
                assert(answer_views(ans_seq).len() == ans_seq.len());
                assert(resp.answers@.len() == ans_seq.len());
                assert(question_views(resp.questions@).len() == resp.questions@.len());
                assert(question_views(req_q).len() == req_q.len());
                assert(resp.questions@.len() == req_q.len());
                assert(ans_seq.len() == req_q.len());
                assert forall|i: int|
                    0 <= i < resp.questions@.len() implies crate::label::encodable(
                    (#[trigger] resp.questions@[i])@.name,
                ) by {
                    assert((resp.questions@[i])@ == question_views(resp.questions@)[i]);
                    assert(question_views(req_q)[i] == m.questions[i]);
                }
                assert forall|i: int|
                    0 <= i < resp.answers@.len() implies crate::label::encodable(
                    (#[trigger] resp.answers@[i])@.name,
                ) && (resp.answers@[i])@.rdata.len() == (resp.answers@[i])@.length by {
                    assert((resp.answers@[i])@ == answer_views(resp.answers@)[i]);
                    assert(answer_views(ans_seq)[i] == ans_seq[i]@);
                    assert(ans_seq[i]@ == spec_stub_answer(req_q[i]@));
                    assert(req_q[i]@ == m.questions[i]);
                }
                assert(resp.header.wf());
                assert(resp.header.qdcount == resp.questions@.len());
                assert(resp.header.ancount == resp.answers@.len());
                assert(resp.wf());
                assert(resp@.answers =~= m.questions.map_values(
                    |q: QuestionModel| spec_stub_answer(q),
                )) by {
                    assert forall|i: int| 0 <= i < resp@.answers.len() implies resp@.answers[i]
                        == m.questions.map_values(|q: QuestionModel| spec_stub_answer(q))[i] by {
                        assert(resp@.answers[i] == ans_seq[i]@);
                        assert(ans_seq[i]@ == spec_stub_answer(req_q[i]@));
                        assert(req_q[i]@ == m.questions[i]);
                    }
                }
                assert(resp@ =~= spec_local_response(m));
            }
            let out = resp.to_bytes();
            Ok(out)
        },
        Err(e) => Err(e),
    }
}

} // verus!
