//! What the server sends back for a datagram: a reply to the message it
//! holds, or a report of the error that kept it from being read.

use crate::dns::answer::AnswerView;
use crate::dns::buffer::{buf_bytes, read_u16, word16};
use crate::dns::common::encode_name;
use crate::dns::header::{
    decode_header, DnsHeader, DnsHeaderAA, DnsHeaderOpcode, DnsHeaderQR, DnsHeaderRA,
    DnsHeaderRD, DnsHeaderRcode, DnsHeaderTC, DnsHeaderZ, HEADER_LEN,
};
use crate::dns::message::{
    build_reply, decode_message, echo_answer, encode_answers, encode_message, encode_questions,
    lemma_decoded_questions, DnsMessage, MessageView,
};
use crate::dns::question::QuestionView;
use crate::error::DnsError;
use bytes::BytesMut;
use vstd::prelude::*;

verus! {

/// The greatest length of the wire form of a name read from a datagram: a
/// name is at most two runs of labels, each within the 512 bytes.
pub const NAME_WIRE_MAX: usize = 1025;

/// The response code that reports an error to the client: `NotImplemented`
/// for a TYPE or CLASS outside the supported set, `ServerFailure` for what
/// went wrong on the server's side, `FormatError` for a datagram that does
/// not hold a message.
pub open spec fn spec_rcode_for(error: DnsError) -> DnsHeaderRcode {
    match error {
        DnsError::InvalidType => DnsHeaderRcode::NotImplemented,
        DnsError::InvalidClass => DnsHeaderRcode::NotImplemented,
        DnsError::UpstreamUnavailable => DnsHeaderRcode::ServerFailure,
        DnsError::EmptyMerge => DnsHeaderRcode::ServerFailure,
        DnsError::MalformedHeader(_) => DnsHeaderRcode::FormatError,
        DnsError::MalformedName => DnsHeaderRcode::FormatError,
        DnsError::TruncatedBuffer => DnsHeaderRcode::FormatError,
    }
}

/// The response code that reports an error to the client.
#[verifier::when_used_as_spec(spec_rcode_for)]
pub fn rcode_for(error: DnsError) -> (rcode: DnsHeaderRcode)
    ensures
        rcode == spec_rcode_for(error),
{
    match error {
        DnsError::InvalidType => DnsHeaderRcode::NotImplemented,
        DnsError::InvalidClass => DnsHeaderRcode::NotImplemented,
        DnsError::UpstreamUnavailable => DnsHeaderRcode::ServerFailure,
        DnsError::EmptyMerge => DnsHeaderRcode::ServerFailure,
        DnsError::MalformedHeader(_) => DnsHeaderRcode::FormatError,
        DnsError::MalformedName => DnsHeaderRcode::FormatError,
        DnsError::TruncatedBuffer => DnsHeaderRcode::FormatError,
    }
}

/// The reply that reports an error: a header with the identifier and RD of
/// the request and the response code of the error, and no records.
pub open spec fn error_reply(id: u16, rd: DnsHeaderRD, error: DnsError) -> MessageView {
    MessageView {
        header: DnsHeader {
            id,
            query_response: DnsHeaderQR::Reply,
            opcode: DnsHeaderOpcode::Query,
            authoritative_answer: DnsHeaderAA::NonAuthoritative,
            truncation: DnsHeaderTC::NotTruncated,
            recursion_desired: rd,
            recursion_available: DnsHeaderRA::RecursionAvailable,
            z: DnsHeaderZ::Reserved,
            rcode: spec_rcode_for(error),
            question_count: 0,
            answer_count: 0,
            authority_count: 0,
            additional_count: 0,
        },
        questions: Seq::empty(),
        answers: Seq::empty(),
    }
}

/// The message that the server sends back for a datagram of at least three
/// bytes: the reply to the message that the datagram holds, or, where it
/// holds none, the report of the error, under the identifier and RD found in
/// the datagram.
pub open spec fn reply_to(datagram: Seq<u8>) -> MessageView {
    match decode_message(datagram) {
        Ok(received) => build_reply(received),
        Err(error) => error_reply(
            word16(datagram[0], datagram[1]),
            DnsHeaderRD::of_flags(datagram[2]),
            error,
        ),
    }
}

/// Questions whose names take up at most 1025 bytes each take up at most
/// 1029 bytes each, and the answers made up for them at most 1039.
pub proof fn lemma_reply_size(questions: Seq<QuestionView>)
    requires
        forall|i: int|
            0 <= i < questions.len() ==> encode_name((#[trigger] questions[i]).name.text).len()
                <= NAME_WIRE_MAX,
    ensures
        encode_questions(questions).len() <= questions.len() * 1029,
        encode_answers(questions.map_values(|q: QuestionView| echo_answer(q))).len()
            <= questions.len() * 1039,
    decreases questions.len(),
{
    if questions.len() > 0 {
        let init = questions.drop_last();
        lemma_reply_size(init);
        let echo = |q: QuestionView| echo_answer(q);
        assert(questions.map_values(echo).drop_last() == init.map_values(echo));
        assert(questions.map_values(echo).last() == echo_answer(questions.last()));
    }
}

/// Reports an error to the sender of a datagram: a reply without records,
/// under the identifier and RD found in the datagram, with the response code
/// of the error.
pub fn report(data: &[u8; 512], error: DnsError) -> (buf: BytesMut)
    ensures
        buf_bytes(buf) == encode_message(
            error_reply(word16(data@[0], data@[1]), DnsHeaderRD::of_flags(data@[2]), error),
        ),
{
    let header = DnsHeader {
        id: read_u16(data, 0),
        query_response: DnsHeaderQR::Reply,
        opcode: DnsHeaderOpcode::Query,
        authoritative_answer: DnsHeaderAA::NonAuthoritative,
        truncation: DnsHeaderTC::NotTruncated,
        recursion_desired: DnsHeaderRD::from(data[2]),
        recursion_available: DnsHeaderRA::RecursionAvailable,
        z: DnsHeaderZ::Reserved,
        rcode: rcode_for(error),
        question_count: 0,
        answer_count: 0,
        authority_count: 0,
        additional_count: 0,
    };
    let reply = DnsMessage::new(header, Vec::new(), Vec::new(), Vec::new(), Vec::new());
    assert(reply@.questions == Seq::<QuestionView>::empty());
    assert(reply@.answers == Seq::<AnswerView>::empty());
    reply.as_buf()
}

/// Answers a datagram: with the reply to the message it holds, or, where it
/// holds none, with the report of the error.
pub fn respond(data: [u8; 512]) -> (buf: BytesMut)
    ensures
        buf_bytes(buf) == encode_message(reply_to(data@)),
{
    match DnsMessage::from(data) {
        Ok(received) => {
            proof {
                let header = decode_header(data@)->Ok_0;
                lemma_decoded_questions(data@, HEADER_LEN as int, header.question_count as nat);
                lemma_reply_size(received@.questions);
                assert forall|i: int| 0 <= i < received.questions@.len() implies encode_name(
                    (#[trigger] received.questions@[i]).name.name@,
                ).len() <= NAME_WIRE_MAX by {
                    assert(received@.questions[i] == received.questions@[i]@);
                }
            }
            let reply = DnsMessage::new_from_received_message(&received);
            reply.as_buf()
        },
        Err(error) => report(&data, error),
    }
}

} // verus!
