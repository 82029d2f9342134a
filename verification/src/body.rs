use crate::answer::{
    lemma_parse_answer_props, spec_answer_bytes, spec_parse_answer, AnswerModel, DNSAnswer,
};
use crate::error::DnsError;
use crate::header::DNSHeader;
use crate::label::{
    chars_fit, encodable, lemma_name_roundtrip, lemma_wire_safe_encodable, segments_le,
    spec_encode_name, wire_safe,
};
use crate::compression::{lemma_encode_wire_safe_wf, lemma_resolve_of_wf};
use crate::question::{
    lemma_parse_question_name, spec_parse_question, spec_question_bytes, DNSQuestion,
    QuestionModel,
};
use vstd::prelude::*;

verus! {

/// A whole DNS message: one header, then the question section, then the
/// answer section.
#[derive(Debug)]
pub struct DNSBody {
    /// The fixed 12-byte header; its counts describe the sections below.
    pub header: DNSHeader,
    /// The questions, in wire order.
    pub questions: Vec<DNSQuestion>,
    /// The answers, in wire order.
    pub answers: Vec<DNSAnswer>,
}

/// The mathematical view of a message.
#[verifier::ext_equal]
pub ghost struct BodyModel {
    pub header: DNSHeader,
    pub questions: Seq<QuestionModel>,
    pub answers: Seq<AnswerModel>,
}

/// The views of a sequence of questions.
pub open spec fn question_views(qs: Seq<DNSQuestion>) -> Seq<QuestionModel> {
    qs.map_values(|q: DNSQuestion| q@)
}

/// The views of a sequence of answers.
pub open spec fn answer_views(ans: Seq<DNSAnswer>) -> Seq<AnswerModel> {
    ans.map_values(|a: DNSAnswer| a@)
}

impl View for DNSBody {
    type V = BodyModel;

    open spec fn view(&self) -> BodyModel {
        BodyModel {
            header: self.header,
            questions: question_views(self.questions@),
            answers: answer_views(self.answers@),
        }
    }
}

impl DNSBody {
    /// A fully valid message, which the encoder relies on: the header's
    /// fields fit their widths, its counts match the sections, every name
    /// can be put on the wire, and each answer's declared length matches its
    /// resource data.
    pub open spec fn wf(self) -> bool {
        &&& self.header.wf()
        &&& self.header.qdcount == self.questions@.len()
        &&& self.header.ancount == self.answers@.len()
        &&& forall|i: int|
            0 <= i < self.questions@.len() ==> encodable(
                (#[trigger] self.questions@[i])@.name,
            )
        &&& forall|i: int|
            0 <= i < self.answers@.len() ==> encodable((#[trigger] self.answers@[i])@.name)
                && (self.answers@[i])@.rdata.len() == (self.answers@[i])@.length
    }
}

/// The concatenated wire bytes of a question section.
pub open spec fn spec_questions_bytes(qs: Seq<QuestionModel>) -> Seq<u8>
    decreases qs.len(),
{
    if qs.len() == 0 {
        Seq::empty()
    } else {
        spec_question_bytes(qs[0]) + spec_questions_bytes(qs.drop_first())
    }
}

/// The concatenated wire bytes of an answer section.
pub open spec fn spec_answers_bytes(ans: Seq<AnswerModel>) -> Seq<u8>
    decreases ans.len(),
{
    if ans.len() == 0 {
        Seq::empty()
    } else {
        spec_answer_bytes(ans[0]) + spec_answers_bytes(ans.drop_first())
    }
}

/// Appending one question appends its bytes.
pub proof fn lemma_questions_bytes_snoc(qs: Seq<QuestionModel>, q: QuestionModel)
    ensures
        spec_questions_bytes(qs.push(q)) == spec_questions_bytes(qs) + spec_question_bytes(q),
    decreases qs.len(),
{
    if qs.len() == 0 {
        let single = qs.push(q);
        assert(single[0] == q);
        assert(single.drop_first() =~= Seq::<QuestionModel>::empty());
        assert(spec_questions_bytes(single.drop_first()) == Seq::<u8>::empty());
        assert(spec_questions_bytes(single) == spec_question_bytes(q) + Seq::<u8>::empty());
        assert(spec_questions_bytes(qs) == Seq::<u8>::empty());
        assert(spec_question_bytes(q) + Seq::<u8>::empty() =~= Seq::<u8>::empty()
            + spec_question_bytes(q));
    } else {
        lemma_questions_bytes_snoc(qs.drop_first(), q);
        assert(qs.push(q).drop_first() =~= qs.drop_first().push(q));
        assert(qs.push(q)[0] == qs[0]);
        assert(spec_questions_bytes(qs.push(q)) =~= spec_questions_bytes(qs)
            + spec_question_bytes(q));
    }
}

/// Appending one answer appends its bytes.
pub proof fn lemma_answers_bytes_snoc(ans: Seq<AnswerModel>, a: AnswerModel)
    ensures
        spec_answers_bytes(ans.push(a)) == spec_answers_bytes(ans) + spec_answer_bytes(a),
    decreases ans.len(),
{
    if ans.len() == 0 {
        let single = ans.push(a);
        assert(single[0] == a);
        assert(single.drop_first() =~= Seq::<AnswerModel>::empty());
        assert(spec_answers_bytes(single.drop_first()) == Seq::<u8>::empty());
        assert(spec_answers_bytes(single) == spec_answer_bytes(a) + Seq::<u8>::empty());
        assert(spec_answers_bytes(ans) == Seq::<u8>::empty());
        assert(spec_answer_bytes(a) + Seq::<u8>::empty() =~= Seq::<u8>::empty()
            + spec_answer_bytes(a));
    } else {
        lemma_answers_bytes_snoc(ans.drop_first(), a);
        assert(ans.push(a).drop_first() =~= ans.drop_first().push(a));
        assert(ans.push(a)[0] == ans[0]);
        assert(spec_answers_bytes(ans.push(a)) =~= spec_answers_bytes(ans) + spec_answer_bytes(
            a,
        ));
    }
}

/// The wire bytes of a whole message: header, questions, answers, with no
/// padding and no reordering.
pub open spec fn spec_body_bytes(m: BodyModel) -> Seq<u8> {
    m.header.spec_to_bytes() + spec_questions_bytes(m.questions) + spec_answers_bytes(m.answers)
}

/// `n` questions decoded in sequence from `pos`, with the position past the
/// last one.
pub open spec fn spec_parse_questions(msg: Seq<u8>, pos: int, n: int) -> Result<
    (Seq<QuestionModel>, int),
    DnsError,
>
    decreases n,
{
    if n <= 0 {
        Ok((Seq::empty(), pos))
    } else {
        match spec_parse_question(msg, pos) {
            Ok(pr) => match spec_parse_questions(msg, pr.1, n - 1) {
                Ok(pr2) => Ok((seq![pr.0] + pr2.0, pr2.1)),
                Err(e) => Err(e),
            },
            Err(e) => Err(e),
        }
    }
}

/// `n` answers decoded in sequence from `pos`, with the position past the
/// last one.
pub open spec fn spec_parse_answers(msg: Seq<u8>, pos: int, n: int) -> Result<
    (Seq<AnswerModel>, int),
    DnsError,
>
    decreases n,
{
    if n <= 0 {
        Ok((Seq::empty(), pos))
    } else {
        match spec_parse_answer(msg, pos) {
            Ok(pr) => match spec_parse_answers(msg, pr.1, n - 1) {
                Ok(pr2) => Ok((seq![pr.0] + pr2.0, pr2.1)),
                Err(e) => Err(e),
            },
            Err(e) => Err(e),
        }
    }
}

/// The whole message decoded from `bytes`: the header, then as many
/// questions and answers as its counts claim, each name resolved against
/// the entire buffer.  Trailing bytes are ignored, as the counts are the
/// authoritative source for parsing.
pub open spec fn spec_parse_body(bytes: Seq<u8>) -> Result<BodyModel, DnsError> {
    if bytes.len() < 12 {
        Err(DnsError::TruncatedHeader)
    } else {
        let h = DNSHeader::spec_from_bytes(bytes);
        match spec_parse_questions(bytes, 12, h.qdcount as int) {
            Ok(pr) => match spec_parse_answers(bytes, pr.1, h.ancount as int) {
                Ok(pr2) => Ok(BodyModel { header: h, questions: pr.0, answers: pr2.0 }),
                Err(e) => Err(e),
            },
            Err(e) => Err(e),
        }
    }
}

/// Reads the 12-byte header off the front of a datagram.  Fails with
/// [`DnsError::TruncatedHeader`] exactly when fewer than 12 bytes are there.
pub fn parse_header(input: &[u8]) -> (r: Result<(DNSHeader, usize), DnsError>)
    ensures
        match r {
            Ok(pr) => input@.len() >= 12 && pr.0 == DNSHeader::spec_from_bytes(input@) && pr.1
                == 12 && pr.0.wf(),
            Err(e) => input@.len() < 12 && e == DnsError::TruncatedHeader,
        },
{
    if input.len() < 12 {
        return Err(DnsError::TruncatedHeader);
    }
    let arr: [u8; 12] = [
        input[0],
        input[1],
        input[2],
        input[3],
        input[4],
        input[5],
        input[6],
        input[7],
        input[8],
        input[9],
        input[10],
        input[11],
    ];
    let h = DNSHeader::from_bytes(&arr);
    proof {
        assert(DNSHeader::spec_from_bytes(arr@) == DNSHeader::spec_from_bytes(input@));
    }
    Ok((h, 12))
}

/// Parses one question at `pos` of `input`; the free-function form of
/// [`DNSQuestion::from_bytes`].
pub fn parse_question(input: &[u8], pos: usize) -> (r: Result<(DNSQuestion, usize), DnsError>)
    requires
        pos <= input@.len(),
    ensures
        match r {
            Ok(pr) => spec_parse_question(input@, pos as int) == Ok::<
                (QuestionModel, int),
                DnsError,
            >((pr.0@, pr.1 as int)) && pos < pr.1 <= input@.len(),
            Err(e) => spec_parse_question(input@, pos as int) == Err::<
                (QuestionModel, int),
                DnsError,
            >(e),
        },
{
    DNSQuestion::from_bytes(input, pos)
}

/// Parses `count` questions in sequence from `pos`, advancing a cursor
/// through the buffer while resolving names against all of it.
pub fn parse_questions(input: &[u8], pos: usize, count: u16) -> (r: Result<
    (Vec<DNSQuestion>, usize),
    DnsError,
>)
    requires
        pos <= input@.len(),
    ensures
        match r {
            Ok(pr) => spec_parse_questions(input@, pos as int, count as int) == Ok::<
                (Seq<QuestionModel>, int),
                DnsError,
            >((question_views(pr.0@), pr.1 as int)) && pr.1 <= input@.len() && pr.0@.len()
                == count,
            Err(e) => spec_parse_questions(input@, pos as int, count as int) == Err::<
                (Seq<QuestionModel>, int),
                DnsError,
            >(e),
        },
{
    let mut questions: Vec<DNSQuestion> = Vec::new();
    let mut cur = pos;
    let mut i: u16 = 0;
    proof {
        match spec_parse_questions(input@, pos as int, count as int) {
            Ok(pr) => {
                assert(question_views(questions@) + pr.0 =~= pr.0);
            },
            Err(_) => {},
        }
    }
    while i < count
        invariant
            i <= count,
            cur <= input@.len(),
            questions@.len() == i,
            match spec_parse_questions(input@, cur as int, count - i) {
                Ok(pr) => spec_parse_questions(input@, pos as int, count as int) == Ok::<
                    (Seq<QuestionModel>, int),
                    DnsError,
                >((question_views(questions@) + pr.0, pr.1)),
                Err(e) => spec_parse_questions(input@, pos as int, count as int) == Err::<
                    (Seq<QuestionModel>, int),
                    DnsError,
                >(e),
            },
        decreases count - i,
    {
        match DNSQuestion::from_bytes(input, cur) {
            Ok((q, np)) => {
                proof {
                    match spec_parse_questions(input@, np as int, count - i - 1) {
                        Ok(pr2) => {
                            assert(question_views(questions@.push(q)) =~= question_views(
                                questions@,
                            ).push(q@));
                            assert(question_views(questions@) + (seq![q@] + pr2.0)
                                =~= question_views(questions@.push(q)) + pr2.0);
                        },
                        Err(_) => {},
                    }
                }
                questions.push(q);
                cur = np;
                i += 1;
            },
            Err(e) => {
                return Err(e);
            },
        }
    }
    proof {
        assert(question_views(questions@) + Seq::<QuestionModel>::empty() =~= question_views(
            questions@,
        ));
    }
    Ok((questions, cur))
}

/// Parses `count` answers in sequence from `pos`, advancing a cursor through
/// the buffer while resolving names against all of it.
pub fn parse_answers(input: &[u8], pos: usize, count: u16) -> (r: Result<
    (Vec<DNSAnswer>, usize),
    DnsError,
>)
    requires
        pos <= input@.len(),
    ensures
        match r {
            Ok(pr) => spec_parse_answers(input@, pos as int, count as int) == Ok::<
                (Seq<AnswerModel>, int),
                DnsError,
            >((answer_views(pr.0@), pr.1 as int)) && pr.1 <= input@.len() && pr.0@.len() == count,
            Err(e) => spec_parse_answers(input@, pos as int, count as int) == Err::<
                (Seq<AnswerModel>, int),
                DnsError,
            >(e),
        },
{
    let mut answers: Vec<DNSAnswer> = Vec::new();
    let mut cur = pos;
    let mut i: u16 = 0;
    proof {
        match spec_parse_answers(input@, pos as int, count as int) {
            Ok(pr) => {
                assert(answer_views(answers@) + pr.0 =~= pr.0);
            },
            Err(_) => {},
        }
    }
    while i < count
        invariant
            i <= count,
            cur <= input@.len(),
            answers@.len() == i,
            match spec_parse_answers(input@, cur as int, count - i) {
                Ok(pr) => spec_parse_answers(input@, pos as int, count as int) == Ok::<
                    (Seq<AnswerModel>, int),
                    DnsError,
                >((answer_views(answers@) + pr.0, pr.1)),
                Err(e) => spec_parse_answers(input@, pos as int, count as int) == Err::<
                    (Seq<AnswerModel>, int),
                    DnsError,
                >(e),
            },
        decreases count - i,
    {
        match DNSAnswer::from_bytes(input, cur) {
            Ok((a, np)) => {
                proof {
                    match spec_parse_answers(input@, np as int, count - i - 1) {
                        Ok(pr2) => {
                            assert(answer_views(answers@.push(a)) =~= answer_views(
                                answers@,
                            ).push(a@));
                            assert(answer_views(answers@) + (seq![a@] + pr2.0) =~= answer_views(
                                answers@.push(a),
                            ) + pr2.0);
                        },
                        Err(_) => {},
                    }
                }
                answers.push(a);
                cur = np;
                i += 1;
            },
            Err(e) => {
                return Err(e);
            },
        }
    }
    proof {
        assert(answer_views(answers@) + Seq::<AnswerModel>::empty() =~= answer_views(answers@));
    }
    Ok((answers, cur))
}

/// Parses a whole datagram: header first, then exactly as many questions and
/// answers as the header's counts claim, never reading past the buffer.
/// Codec errors pass through unchanged.
pub fn parse_body(input: &[u8]) -> (r: Result<DNSBody, DnsError>)
    ensures
        match r {
            Ok(b) => spec_parse_body(input@) == Ok::<BodyModel, DnsError>(b@),
            Err(e) => spec_parse_body(input@) == Err::<BodyModel, DnsError>(e),
        },
{
    match parse_header(input) {
        Ok((header, pos)) => match parse_questions(input, pos, header.qdcount) {
            Ok((questions, pos2)) => match parse_answers(input, pos2, header.ancount) {
                Ok((answers, _)) => {
                    let b = DNSBody { header, questions, answers };
                    proof {
                        assert(spec_parse_body(input@)->Ok_0 =~= b@);
                    }
                    Ok(b)
                },
                Err(e) => Err(e),
            },
            Err(e) => Err(e),
        },
        Err(e) => Err(e),
    }
}

impl DNSBody {
    /// Serialises the whole message: header bytes, then each question's
    /// bytes in order, then each answer's bytes in order.
    pub fn to_bytes(&self) -> (r: Vec<u8>)
        requires
            self.wf(),
        ensures
            r@ == spec_body_bytes(self@),
    {
        let mut byte_array: Vec<u8> = Vec::new();
        let hb = self.header.to_bytes();
        byte_array.extend_from_slice(hb.as_slice());
        let ghost qviews = question_views(self.questions@);
        let ghost aviews = answer_views(self.answers@);
        proof {
            assert(byte_array@ =~= self.header.spec_to_bytes() + spec_questions_bytes(
                qviews.take(0),
            ));
        }
        let mut i: usize = 0;
        while i < self.questions.len()
            invariant
                self.wf(),
                i <= self.questions.len(),
                qviews == question_views(self.questions@),
                byte_array@ == self.header.spec_to_bytes() + spec_questions_bytes(
                    qviews.take(i as int),
                ),
            decreases self.questions.len() - i,
        {
            let mut qb = self.questions[i].to_bytes();
            byte_array.append(&mut qb);
            proof {
                lemma_questions_bytes_snoc(qviews.take(i as int), qviews[i as int]);
                assert(qviews.take(i + 1) =~= qviews.take(i as int).push(qviews[i as int]));
            }
            i += 1;
        }
        proof {
            assert(qviews.take(self.questions@.len() as int) =~= qviews);
        }
        let mut j: usize = 0;
        while j < self.answers.len()
            invariant
                self.wf(),
                j <= self.answers.len(),
                qviews == question_views(self.questions@),
                aviews == answer_views(self.answers@),
                byte_array@ == self.header.spec_to_bytes() + spec_questions_bytes(qviews)
                    + spec_answers_bytes(aviews.take(j as int)),
            decreases self.answers.len() - j,
        {
            let mut ab = self.answers[j].to_bytes();
            byte_array.append(&mut ab);
            proof {
                lemma_answers_bytes_snoc(aviews.take(j as int), aviews[j as int]);
                assert(aviews.take(j + 1) =~= aviews.take(j as int).push(aviews[j as int]));
            }
            j += 1;
        }
        proof {
            assert(aviews.take(self.answers@.len() as int) =~= aviews);
        }
        byte_array
    }
}


/// A successfully parsed question section has exactly `n` questions, all of
/// whose names are fit for re-encoding, and the cursor only moves forward.
pub proof fn lemma_parse_questions_props(
    msg: Seq<u8>,
    pos: int,
    n: int,
    qs: Seq<QuestionModel>,
    end: int,
)
    requires
        0 <= pos,
        n >= 0,
        spec_parse_questions(msg, pos, n) == Ok::<(Seq<QuestionModel>, int), DnsError>((qs, end)),
    ensures
        qs.len() == n,
        pos <= end,
        forall|i: int|
            0 <= i < qs.len() ==> encodable((#[trigger] qs[i]).name) && chars_fit(qs[i].name)
                && segments_le(qs[i].name, 191),
    decreases n,
{
    if n > 0 {
        lemma_parse_question_name(msg, pos);
        let pr = spec_parse_question(msg, pos)->Ok_0;
        crate::compression::lemma_resolve_wf(msg.skip(pos), msg);
        let pr2 = spec_parse_questions(msg, pr.1, n - 1)->Ok_0;
        lemma_parse_questions_props(msg, pr.1, n - 1, pr2.0, pr2.1);
        assert forall|i: int|
            0 <= i < qs.len() implies encodable((#[trigger] qs[i]).name) && chars_fit(qs[i].name)
            && segments_le(qs[i].name, 191) by {
            if i == 0 {
                assert(qs[i] == pr.0);
            } else {
                assert(qs[i] == pr2.0[i - 1]);
            }
        }
    }
}

/// A successfully parsed answer section has exactly `n` answers, all of
/// whose names are fit for re-encoding and whose resource data matches its
/// declared length; the cursor only moves forward.
pub proof fn lemma_parse_answers_props(
    msg: Seq<u8>,
    pos: int,
    n: int,
    ans: Seq<AnswerModel>,
    end: int,
)
    requires
        0 <= pos,
        n >= 0,
        spec_parse_answers(msg, pos, n) == Ok::<(Seq<AnswerModel>, int), DnsError>((ans, end)),
    ensures
        ans.len() == n,
        pos <= end,
        forall|i: int|
            0 <= i < ans.len() ==> encodable((#[trigger] ans[i]).name) && chars_fit(ans[i].name)
                && segments_le(ans[i].name, 191) && ans[i].rdata.len() == ans[i].length,
    decreases n,
{
    if n > 0 {
        lemma_parse_answer_props(msg, pos);
        let pr = spec_parse_answer(msg, pos)->Ok_0;
        crate::compression::lemma_resolve_wf(msg.skip(pos), msg);
        let pr2 = spec_parse_answers(msg, pr.1, n - 1)->Ok_0;
        lemma_parse_answers_props(msg, pr.1, n - 1, pr2.0, pr2.1);
        assert forall|i: int|
            0 <= i < ans.len() implies encodable((#[trigger] ans[i]).name) && chars_fit(
            ans[i].name,
        ) && segments_le(ans[i].name, 191) && ans[i].rdata.len() == ans[i].length by {
            if i == 0 {
                assert(ans[i] == pr.0);
            } else {
                assert(ans[i] == pr2.0[i - 1]);
            }
        }
    }
}

/// What a successful parse guarantees of the message it hands back: the
/// header is well-formed, its counts match the parsed sections, every name
/// is fit for re-encoding with segments short enough for plain labels, and
/// each answer's resource data matches its declared length.
pub proof fn lemma_parse_body_props(bytes: Seq<u8>, m: BodyModel)
    requires
        spec_parse_body(bytes) == Ok::<BodyModel, DnsError>(m),
    ensures
        m.header.wf(),
        m.questions.len() == m.header.qdcount,
        m.answers.len() == m.header.ancount,
        forall|i: int|
            0 <= i < m.questions.len() ==> encodable((#[trigger] m.questions[i]).name)
                && chars_fit(m.questions[i].name) && segments_le(m.questions[i].name, 191),
        forall|i: int|
            0 <= i < m.answers.len() ==> encodable((#[trigger] m.answers[i]).name) && chars_fit(
                m.answers[i].name,
            ) && segments_le(m.answers[i].name, 191) && m.answers[i].rdata.len()
                == m.answers[i].length,
{
    crate::header::lemma_spec_from_bytes_wf(bytes);
    let h = DNSHeader::spec_from_bytes(bytes);
    let pr = spec_parse_questions(bytes, 12, h.qdcount as int)->Ok_0;
    lemma_parse_questions_props(bytes, 12, h.qdcount as int, pr.0, pr.1);
    let pr2 = spec_parse_answers(bytes, pr.1, h.ancount as int)->Ok_0;
    lemma_parse_answers_props(bytes, pr.1, h.ancount as int, pr2.0, pr2.1);
}


/// Parsing picks an encoded question back up: where a wire-safe question's
/// bytes lie at `pos`, the parse returns the question and stops just past
/// its bytes.
proof fn lemma_parse_encoded_question(msg: Seq<u8>, pos: int, q: QuestionModel)
    requires
        0 <= pos,
        pos + spec_question_bytes(q).len() <= msg.len(),
        msg.subrange(pos, pos + spec_question_bytes(q).len()) == spec_question_bytes(q),
        wire_safe(q.name),
    ensures
        spec_parse_question(msg, pos) == Ok::<(QuestionModel, int), DnsError>(
            (q, pos + spec_question_bytes(q).len()),
        ),
{
    let qb = spec_question_bytes(q);
    let w = spec_encode_name(q.name);
    let lw = w.len() as int;
    lemma_encode_wire_safe_wf(q.name);
    let comp = msg.skip(pos);
    assert forall|i: int| 0 <= i < qb.len() implies msg[pos + i] == qb[i] by {
        assert(msg.subrange(pos, pos + qb.len())[i] == msg[pos + i]);
    }
    assert(comp.subrange(0, lw) =~= w) by {
        assert forall|i: int| 0 <= i < lw implies comp[i] == w[i] by {
            assert(comp[i] == msg[pos + i]);
            assert(qb[i] == w[i]);
        }
    }
    lemma_resolve_of_wf(comp, w, msg);
    lemma_wire_safe_encodable(q.name);
    lemma_name_roundtrip(q.name);
    let p2 = pos + lw;
    assert(msg[p2] == qb[lw] && qb[lw] == crate::header::spec_be16(q.qtype)[0]);
    assert(msg[p2 + 1] == qb[lw + 1] && qb[lw + 1] == crate::header::spec_be16(q.qtype)[1]);
    assert(msg[p2 + 2] == qb[lw + 2] && qb[lw + 2] == crate::header::spec_be16(q.qclass)[0]);
    assert(msg[p2 + 3] == qb[lw + 3] && qb[lw + 3] == crate::header::spec_be16(q.qclass)[1]);
    crate::header::lemma_be16_at_of(msg, p2, q.qtype);
    crate::header::lemma_be16_at_of(msg, p2 + 2, q.qclass);
    let parsed = spec_parse_question(msg, pos)->Ok_0;
    assert(parsed.0 =~= q);
    assert(parsed.1 == pos + qb.len());
}

/// Parsing picks an encoded answer back up, provided its resource data
/// matches its declared length.
proof fn lemma_parse_encoded_answer(msg: Seq<u8>, pos: int, a: AnswerModel)
    requires
        0 <= pos,
        pos + spec_answer_bytes(a).len() <= msg.len(),
        msg.subrange(pos, pos + spec_answer_bytes(a).len()) == spec_answer_bytes(a),
        wire_safe(a.name),
        a.rdata.len() == a.length,
    ensures
        spec_parse_answer(msg, pos) == Ok::<(AnswerModel, int), DnsError>(
            (a, pos + spec_answer_bytes(a).len()),
        ),
{
    let ab = spec_answer_bytes(a);
    let w = spec_encode_name(a.name);
    let lw = w.len() as int;
    lemma_encode_wire_safe_wf(a.name);
    let comp = msg.skip(pos);
    assert forall|i: int| 0 <= i < ab.len() implies msg[pos + i] == ab[i] by {
        assert(msg.subrange(pos, pos + ab.len())[i] == msg[pos + i]);
    }
    assert(comp.subrange(0, lw) =~= w) by {
        assert forall|i: int| 0 <= i < lw implies comp[i] == w[i] by {
            assert(comp[i] == msg[pos + i]);
            assert(ab[i] == w[i]);
        }
    }
    lemma_resolve_of_wf(comp, w, msg);
    lemma_wire_safe_encodable(a.name);
    lemma_name_roundtrip(a.name);
    let p2 = pos + lw;
    assert(msg[p2] == ab[lw] && ab[lw] == crate::header::spec_be16(a.rtype)[0]);
    assert(msg[p2 + 1] == ab[lw + 1] && ab[lw + 1] == crate::header::spec_be16(a.rtype)[1]);
    assert(msg[p2 + 2] == ab[lw + 2] && ab[lw + 2] == crate::header::spec_be16(a.class)[0]);
    assert(msg[p2 + 3] == ab[lw + 3] && ab[lw + 3] == crate::header::spec_be16(a.class)[1]);
    assert(msg[p2 + 4] == ab[lw + 4] && ab[lw + 4] == crate::answer::spec_be32(a.ttl)[0]);
    assert(msg[p2 + 5] == ab[lw + 5] && ab[lw + 5] == crate::answer::spec_be32(a.ttl)[1]);
    assert(msg[p2 + 6] == ab[lw + 6] && ab[lw + 6] == crate::answer::spec_be32(a.ttl)[2]);
    assert(msg[p2 + 7] == ab[lw + 7] && ab[lw + 7] == crate::answer::spec_be32(a.ttl)[3]);
    assert(msg[p2 + 8] == ab[lw + 8] && ab[lw + 8] == crate::header::spec_be16(a.length)[0]);
    assert(msg[p2 + 9] == ab[lw + 9] && ab[lw + 9] == crate::header::spec_be16(a.length)[1]);
    crate::header::lemma_be16_at_of(msg, p2, a.rtype);
    crate::header::lemma_be16_at_of(msg, p2 + 2, a.class);
    crate::answer::lemma_be32_at_of(msg, p2 + 4, a.ttl);
    crate::header::lemma_be16_at_of(msg, p2 + 8, a.length);
    let rdlen = a.rdata.len() as int;
    assert(msg.subrange(p2 + 10, p2 + 10 + rdlen) =~= a.rdata) by {
        assert forall|i: int| 0 <= i < rdlen implies msg.subrange(p2 + 10, p2 + 10 + rdlen)[i]
            == a.rdata[i] by {
            assert(msg.subrange(p2 + 10, p2 + 10 + rdlen)[i] == msg[p2 + 10 + i]);
            assert(msg[p2 + 10 + i] == ab[lw + 10 + i]);
            assert(ab[lw + 10 + i] == a.rdata[i]);
        }
    }
    let parsed = spec_parse_answer(msg, pos)->Ok_0;
    assert(parsed.0 =~= a);
    assert(parsed.1 == pos + ab.len());
}

/// Parsing picks a whole encoded question section back up.
proof fn lemma_parse_encoded_questions(msg: Seq<u8>, pos: int, qs: Seq<QuestionModel>)
    requires
        0 <= pos,
        pos + spec_questions_bytes(qs).len() <= msg.len(),
        msg.subrange(pos, pos + spec_questions_bytes(qs).len()) == spec_questions_bytes(qs),
        forall|i: int| 0 <= i < qs.len() ==> wire_safe((#[trigger] qs[i]).name),
    ensures
        spec_parse_questions(msg, pos, qs.len() as int) == Ok::<
            (Seq<QuestionModel>, int),
            DnsError,
        >((qs, pos + spec_questions_bytes(qs).len())),
    decreases qs.len(),
{
    if qs.len() == 0 {
        assert(qs =~= Seq::<QuestionModel>::empty());
    } else {
        let q0 = qs[0];
        let qb = spec_question_bytes(q0);
        let rest = qs.drop_first();
        let restb = spec_questions_bytes(rest);
        assert(spec_questions_bytes(qs) == qb + restb);
        assert forall|i: int| 0 <= i < qb.len() + restb.len() implies msg[pos + i]
            == (qb + restb)[i] by {
            assert(msg.subrange(pos, pos + spec_questions_bytes(qs).len())[i] == msg[pos + i]);
        }
        assert(msg.subrange(pos, pos + qb.len()) =~= qb) by {
            assert forall|i: int| 0 <= i < qb.len() implies msg.subrange(pos, pos + qb.len())[i]
                == qb[i] by {
                assert(msg.subrange(pos, pos + qb.len())[i] == msg[pos + i]);
                assert((qb + restb)[i] == qb[i]);
            }
        }
        lemma_parse_encoded_question(msg, pos, q0);
        let pos2 = pos + qb.len();
        assert(msg.subrange(pos2, pos2 + restb.len()) =~= restb) by {
            assert forall|i: int| 0 <= i < restb.len() implies msg.subrange(
                pos2,
                pos2 + restb.len(),
            )[i] == restb[i] by {
                assert(msg.subrange(pos2, pos2 + restb.len())[i] == msg[pos2 + i]);
                assert((qb + restb)[qb.len() + i] == restb[i]);
            }
        }
        assert forall|i: int| 0 <= i < rest.len() implies wire_safe(
            (#[trigger] rest[i]).name,
        ) by {
            assert(rest[i] == qs[i + 1]);
        }
        lemma_parse_encoded_questions(msg, pos2, rest);
        assert(seq![q0] + rest =~= qs);
    }
}

/// Parsing picks a whole encoded answer section back up.
proof fn lemma_parse_encoded_answers(msg: Seq<u8>, pos: int, ans: Seq<AnswerModel>)
    requires
        0 <= pos,
        pos + spec_answers_bytes(ans).len() <= msg.len(),
        msg.subrange(pos, pos + spec_answers_bytes(ans).len()) == spec_answers_bytes(ans),
        forall|i: int|
            0 <= i < ans.len() ==> wire_safe((#[trigger] ans[i]).name) && ans[i].rdata.len()
                == ans[i].length,
    ensures
        spec_parse_answers(msg, pos, ans.len() as int) == Ok::<(Seq<AnswerModel>, int), DnsError>(
            (ans, pos + spec_answers_bytes(ans).len()),
        ),
    decreases ans.len(),
{
    if ans.len() == 0 {
        assert(ans =~= Seq::<AnswerModel>::empty());
    } else {
        let a0 = ans[0];
        let ab = spec_answer_bytes(a0);
        let rest = ans.drop_first();
        let restb = spec_answers_bytes(rest);
        assert(spec_answers_bytes(ans) == ab + restb);
        assert forall|i: int| 0 <= i < ab.len() + restb.len() implies msg[pos + i]
            == (ab + restb)[i] by {
            assert(msg.subrange(pos, pos + spec_answers_bytes(ans).len())[i] == msg[pos + i]);
        }
        assert(msg.subrange(pos, pos + ab.len()) =~= ab) by {
            assert forall|i: int| 0 <= i < ab.len() implies msg.subrange(pos, pos + ab.len())[i]
                == ab[i] by {
                assert(msg.subrange(pos, pos + ab.len())[i] == msg[pos + i]);
                assert((ab + restb)[i] == ab[i]);
            }
        }
        lemma_parse_encoded_answer(msg, pos, a0);
        let pos2 = pos + ab.len();
        assert(msg.subrange(pos2, pos2 + restb.len()) =~= restb) by {
            assert forall|i: int| 0 <= i < restb.len() implies msg.subrange(
                pos2,
                pos2 + restb.len(),
            )[i] == restb[i] by {
                assert(msg.subrange(pos2, pos2 + restb.len())[i] == msg[pos2 + i]);
                assert((ab + restb)[ab.len() + i] == restb[i]);
            }
        }
        assert forall|i: int| 0 <= i < rest.len() implies wire_safe((#[trigger] rest[i]).name)
            && rest[i].rdata.len() == rest[i].length by {
            assert(rest[i] == ans[i + 1]);
        }
        lemma_parse_encoded_answers(msg, pos2, rest);
        assert(seq![a0] + rest =~= ans);
    }
}

/// Idempotence of the codec: encoding a decoded message and decoding it
/// again gives the message back field for field, header counts included.
/// The one proviso is that every name in the decoded message is wire-safe:
/// a decoded name with an empty dotted segment — which only arises from a
/// label whose content contains a literal dot — re-encodes to a different
/// label structure, so such messages cannot survive the second trip.
#[verifier::rlimit(80)]
pub proof fn lemma_message_idempotent(bytes: Seq<u8>, m: BodyModel)
    requires
        spec_parse_body(bytes) == Ok::<BodyModel, DnsError>(m),
        forall|i: int| 0 <= i < m.questions.len() ==> wire_safe((#[trigger] m.questions[i]).name),
        forall|i: int| 0 <= i < m.answers.len() ==> wire_safe((#[trigger] m.answers[i]).name),
    ensures
        spec_parse_body(spec_body_bytes(m)) == Ok::<BodyModel, DnsError>(m),
{
    lemma_parse_body_props(bytes, m);
    let b2 = spec_body_bytes(m);
    let hb = m.header.spec_to_bytes();
    let qb = spec_questions_bytes(m.questions);
    let ab = spec_answers_bytes(m.answers);
    assert(hb.len() == 12);
    assert(b2.len() >= 12);
    crate::header::lemma_header_roundtrip(m.header);
    assert(DNSHeader::spec_from_bytes(b2) == m.header) by {
        assert forall|i: int| 0 <= i < 12 implies b2[i] == hb[i] by {
            assert(b2[i] == (hb + qb + ab)[i]);
        }
        crate::header::lemma_spec_from_bytes_prefix(b2, hb);
    }
    assert(b2.subrange(12, 12 + qb.len() as int) =~= qb) by {
        assert forall|i: int| 0 <= i < qb.len() implies b2.subrange(12, 12 + qb.len() as int)[i]
            == qb[i] by {
            assert(b2.subrange(12, 12 + qb.len() as int)[i] == b2[12 + i]);
            assert(b2[12 + i] == (hb + qb + ab)[12 + i]);
        }
    }
    lemma_parse_encoded_questions(b2, 12, m.questions);
    let pos2 = 12 + qb.len() as int as int;
    assert(b2.subrange(pos2, pos2 + ab.len()) =~= ab) by {
        assert forall|i: int| 0 <= i < ab.len() implies b2.subrange(pos2, pos2 + ab.len())[i]
            == ab[i] by {
            assert(b2.subrange(pos2, pos2 + ab.len())[i] == b2[pos2 + i]);
            assert(b2[pos2 + i] == (hb + qb + ab)[pos2 + i]);
        }
    }
    lemma_parse_encoded_answers(b2, pos2, m.answers);
    let m2 = spec_parse_body(b2)->Ok_0;
    assert(m2 =~= m);
}

} // verus!
