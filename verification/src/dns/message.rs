//! Whole messages: a header, questions and answers.

use crate::dns::additional::DnsAdditional;
use crate::dns::answer::{
    answer_read_back, answer_round_trips, answer_span, decode_answer, encode_answer,
    lemma_answer_round_trip, AnswerView, DnsAnswer, RECORD_FIXED,
};
use crate::dns::authority::DnsAuthority;
use crate::dns::buffer::{buf_bytes, fits, new_buf, put_buf};
use crate::dns::common::{encode_name, lemma_resolved_name, valid_text, NameView};
use crate::dns::header::{
    decode_header, encode_header, lemma_header_round_trip, DnsHeader, DnsHeaderAA,
    DnsHeaderOpcode, DnsHeaderQR, DnsHeaderRA, DnsHeaderRcode, DnsHeaderTC, DnsHeaderZ,
    HEADER_LEN,
};
use crate::dns::question::{
    decode_question, encode_question, lemma_question_round_trip, question_read_back,
    question_round_trips, DnsQuestion, QuestionView,
};
use crate::error::DnsError;
use bytes::BytesMut;
use vstd::prelude::*;

verus! {

/// A message: the header and the sections that follow it.
#[derive(Debug, PartialEq, Eq)]
pub struct DnsMessage {
    pub header: DnsHeader,
    pub questions: Vec<DnsQuestion>,
    pub answers: Vec<DnsAnswer>,
    pub authorities: Vec<DnsAuthority>,
    pub additional: Vec<DnsAdditional>,
}

/// A message as plain values: its header, questions and answers. The two
/// sections that the codec neither reads nor writes have no part in it.
pub struct MessageView {
    pub header: DnsHeader,
    pub questions: Seq<QuestionView>,
    pub answers: Seq<AnswerView>,
}

/// Questions as plain values.
pub open spec fn question_views(questions: Seq<DnsQuestion>) -> Seq<QuestionView> {
    questions.map_values(|q: DnsQuestion| q@)
}

/// Answers as plain values.
pub open spec fn answer_views(answers: Seq<DnsAnswer>) -> Seq<AnswerView> {
    answers.map_values(|a: DnsAnswer| a@)
}

impl View for DnsMessage {
    type V = MessageView;

    open spec fn view(&self) -> MessageView {
        MessageView {
            header: self.header,
            questions: question_views(self.questions@),
            answers: answer_views(self.answers@),
        }
    }
}

/// The wire form of questions, one after the other.
pub open spec fn encode_questions(questions: Seq<QuestionView>) -> Seq<u8>
    decreases questions.len(),
{
    if questions.len() == 0 {
        Seq::empty()
    } else {
        encode_questions(questions.drop_last()) + encode_question(questions.last())
    }
}

/// The wire form of answers, one after the other.
pub open spec fn encode_answers(answers: Seq<AnswerView>) -> Seq<u8>
    decreases answers.len(),
{
    if answers.len() == 0 {
        Seq::empty()
    } else {
        encode_answers(answers.drop_last()) + encode_answer(answers.last())
    }
}

/// The wire form of a message: the header, the questions, the answers, with
/// nothing between them and nothing behind.
pub open spec fn encode_message(m: MessageView) -> Seq<u8> {
    encode_header(m.header) + encode_questions(m.questions) + encode_answers(m.answers)
}

/// The `count` questions that start at `start`, each right behind the one
/// before it, with the place where the last one ends. The first question
/// that cannot be read gives the error.
pub open spec fn decode_questions(buf: Seq<u8>, start: int, count: nat) -> Result<
    (Seq<QuestionView>, int),
    DnsError,
>
    decreases count,
{
    if count == 0 {
        Ok((Seq::empty(), start))
    } else {
        match decode_question(buf, start) {
            Err(e) => Err(e),
            Ok(q) => match decode_questions(buf, start + q.length, (count - 1) as nat) {
                Err(e) => Err(e),
                Ok((rest, end)) => Ok((seq![q] + rest, end)),
            },
        }
    }
}

/// The `count` answers that start at `start`, each right behind the one
/// before it, with the place where the last one ends. The first answer that
/// cannot be read gives the error.
pub open spec fn decode_answers(buf: Seq<u8>, start: int, count: nat) -> Result<
    (Seq<AnswerView>, int),
    DnsError,
>
    decreases count,
{
    if count == 0 {
        Ok((Seq::empty(), start))
    } else {
        match decode_answer(buf, start) {
            Err(e) => Err(e),
            Ok(a) => match decode_answers(buf, start + answer_span(a), (count - 1) as nat) {
                Err(e) => Err(e),
                Ok((rest, end)) => Ok((seq![a] + rest, end)),
            },
        }
    }
}

/// The message that a buffer holds: the header in its first twelve bytes,
/// then exactly as many questions as QDCOUNT says, then exactly as many
/// answers as ANCOUNT says. What follows the last answer is not read.
pub open spec fn decode_message(buf: Seq<u8>) -> Result<MessageView, DnsError> {
    match decode_header(buf) {
        Err(e) => Err(e),
        Ok(header) => match decode_questions(
            buf,
            HEADER_LEN as int,
            header.question_count as nat,
        ) {
            Err(e) => Err(e),
            Ok((questions, end)) => match decode_answers(buf, end, header.answer_count as nat) {
                Err(e) => Err(e),
                Ok((answers, _)) => Ok(MessageView { header, questions, answers }),
            },
        },
    }
}

/// The time to live, in seconds, of the answers that the server makes up.
pub const REPLY_TTL: u32 = 60;

/// The data of the answers that the server makes up: the address 8.8.8.8.
pub open spec fn reply_data() -> Seq<u8> {
    seq![8u8, 8, 8, 8]
}

/// The answer that the server makes up for a question: the question's own
/// name, TYPE and CLASS, the fixed time to live and the fixed data.
pub open spec fn echo_answer(q: QuestionView) -> AnswerView {
    AnswerView {
        name: NameView {
            text: q.name.text,
            offset: None,
            length: encode_name(q.name.text).len(),
        },
        qtype: q.qtype,
        qclass: q.qclass,
        ttl: REPLY_TTL,
        length: 4,
        data: reply_data(),
    }
}

/// The header of the reply to a message with the header `received` and
/// `count` questions. It repeats the identifier, the OPCODE and RD, says that
/// recursion is on offer, and reports success for a plain query and
/// `NotImplemented` for any other operation.
pub open spec fn reply_header(received: DnsHeader, count: nat) -> DnsHeader {
    DnsHeader {
        id: received.id,
        query_response: DnsHeaderQR::Reply,
        opcode: received.opcode,
        authoritative_answer: DnsHeaderAA::NonAuthoritative,
        truncation: DnsHeaderTC::NotTruncated,
        recursion_desired: received.recursion_desired,
        recursion_available: DnsHeaderRA::RecursionAvailable,
        z: DnsHeaderZ::Reserved,
        rcode: if received.opcode == DnsHeaderOpcode::Query {
            DnsHeaderRcode::NoError
        } else {
            DnsHeaderRcode::NotImplemented
        },
        question_count: count as u16,
        answer_count: count as u16,
        authority_count: 0,
        additional_count: 0,
    }
}

/// The reply to a received message: its questions, and for each of them the
/// answer that the server makes up.
pub open spec fn build_reply(received: MessageView) -> MessageView {
    MessageView {
        header: reply_header(received.header, received.questions.len()),
        questions: received.questions,
        answers: received.questions.map_values(|q: QuestionView| echo_answer(q)),
    }
}

/// Messages as plain values.
pub open spec fn message_views(messages: Seq<DnsMessage>) -> Seq<MessageView> {
    messages.map_values(|m: DnsMessage| m@)
}

/// The questions of all the messages, in the order of the messages.
pub open spec fn all_questions(messages: Seq<MessageView>) -> Seq<QuestionView>
    decreases messages.len(),
{
    if messages.len() == 0 {
        Seq::empty()
    } else {
        all_questions(messages.drop_last()) + messages.last().questions
    }
}

/// The answers of all the messages, in the order of the messages.
pub open spec fn all_answers(messages: Seq<MessageView>) -> Seq<AnswerView>
    decreases messages.len(),
{
    if messages.len() == 0 {
        Seq::empty()
    } else {
        all_answers(messages.drop_last()) + messages.last().answers
    }
}

/// The one message that several make: the header of the first, with its
/// QDCOUNT and ANCOUNT set to the totals, before all the questions and all
/// the answers. There is none to make of no messages.
pub open spec fn merge_messages(messages: Seq<MessageView>) -> Result<MessageView, DnsError> {
    if messages.len() == 0 {
        Err(DnsError::EmptyMerge)
    } else {
        Ok(
            MessageView {
                header: DnsHeader {
                    question_count: all_questions(messages).len() as u16,
                    answer_count: all_answers(messages).len() as u16,
                    ..messages[0].header
                },
                questions: all_questions(messages),
                answers: all_answers(messages),
            },
        )
    }
}

/// Merging one message alone gives that message back, where its header
/// counts the questions and answers that it holds.
pub proof fn lemma_merge_single(m: MessageView)
    requires
        m.header.question_count == m.questions.len(),
        m.header.answer_count == m.answers.len(),
    ensures
        merge_messages(seq![m]) == Ok::<MessageView, DnsError>(m),
{
    let messages = seq![m];
    let none = messages.drop_last();
    assert(none.len() == 0);
    assert(all_questions(none) + m.questions == m.questions);
    assert(all_answers(none) + m.answers == m.answers);
}

/// The query that asks one question of an upstream resolver: the header of
/// the message the question came in, counting one question and nothing else,
/// and the question.
pub open spec fn query_for(header: DnsHeader, question: QuestionView) -> MessageView {
    MessageView {
        header: DnsHeader {
            question_count: 1,
            answer_count: 0,
            authority_count: 0,
            additional_count: 0,
            ..header
        },
        questions: seq![question],
        answers: Seq::empty(),
    }
}

/// The queries that a message splits into: one for each of its questions, in
/// their order.
pub open spec fn split_message(m: MessageView) -> Seq<MessageView> {
    m.questions.map_values(|q: QuestionView| query_for(m.header, q))
}

/// The queries that messages split into hold the questions of the messages,
/// and no answers.
pub proof fn lemma_split_questions(header: DnsHeader, questions: Seq<QuestionView>)
    ensures
        all_questions(questions.map_values(|q: QuestionView| query_for(header, q))) == questions,
        all_answers(questions.map_values(|q: QuestionView| query_for(header, q))).len() == 0,
    decreases questions.len(),
{
    let make = |q: QuestionView| query_for(header, q);
    if questions.len() > 0 {
        let init = questions.drop_last();
        lemma_split_questions(header, init);
        assert(questions.map_values(make).drop_last() == init.map_values(make));
        assert(questions.map_values(make).last() == query_for(header, questions.last()));
        assert(init + seq![questions.last()] == questions);
    }
}

/// Merging the queries that a message splits into gives its questions back,
/// under its header, with QDCOUNT set to their number and the other counts
/// to zero. This holds of a message with at least one question and no more
/// than QDCOUNT can count.
pub proof fn lemma_merge_split(m: MessageView)
    requires
        0 < m.questions.len() <= u16::MAX,
    ensures
        merge_messages(split_message(m)) == Ok::<MessageView, DnsError>(
            MessageView {
                header: DnsHeader {
                    question_count: m.questions.len() as u16,
                    answer_count: 0,
                    authority_count: 0,
                    additional_count: 0,
                    ..m.header
                },
                questions: m.questions,
                answers: Seq::empty(),
            },
        ),
{
    lemma_split_questions(m.header, m.questions);
    let queries = split_message(m);
    assert(queries[0] == query_for(m.header, m.questions[0]));
    assert(all_answers(queries) == Seq::<AnswerView>::empty());
}

/// What holds of questions read from a buffer: there are as many as were
/// asked for, and the name of each can be written again, in a wire form of
/// at most twice the buffer and one byte.
pub proof fn lemma_decoded_questions(buf: Seq<u8>, start: int, count: nat)
    requires
        decode_questions(buf, start, count) is Ok,
    ensures
        ({
            let (questions, end) = decode_questions(buf, start, count)->Ok_0;
            &&& questions.len() == count
            &&& forall|i: int|
                0 <= i < questions.len() ==> valid_text((#[trigger] questions[i]).name.text)
                    && encode_name(questions[i].name.text).len() <= 2 * buf.len() + 1
        }),
    decreases count,
{
    if count > 0 {
        let q = decode_question(buf, start)->Ok_0;
        lemma_resolved_name(buf, start);
        lemma_decoded_questions(buf, start + q.length, (count - 1) as nat);
        let (rest, _) = decode_questions(buf, start + q.length, (count - 1) as nat)->Ok_0;
        let (questions, _) = decode_questions(buf, start, count)->Ok_0;
        assert(questions == seq![q] + rest);
        assert forall|i: int| 0 <= i < questions.len() implies valid_text(
            (#[trigger] questions[i]).name.text,
        ) && encode_name(questions[i].name.text).len() <= 2 * buf.len() + 1 by {
            if i > 0 {
                assert(questions[i] == rest[i - 1]);
            }
        }
    }
}

/// What holds of answers read from a buffer: there are as many as were asked
/// for.
pub proof fn lemma_decoded_answers(buf: Seq<u8>, start: int, count: nat)
    requires
        decode_answers(buf, start, count) is Ok,
    ensures
        decode_answers(buf, start, count)->Ok_0.0.len() == count,
    decreases count,
{
    if count > 0 {
        let a = decode_answer(buf, start)->Ok_0;
        lemma_decoded_answers(buf, start + answer_span(a), (count - 1) as nat);
    }
}

/// A message read from a buffer holds exactly as many questions and answers
/// as its header counts.
pub proof fn lemma_decoded_counts(buf: Seq<u8>)
    requires
        decode_message(buf) is Ok,
    ensures
        ({
            let m = decode_message(buf)->Ok_0;
            &&& m.questions.len() == m.header.question_count
            &&& m.answers.len() == m.header.answer_count
        }),
{
    let header = decode_header(buf)->Ok_0;
    lemma_decoded_questions(buf, HEADER_LEN as int, header.question_count as nat);
    let (_, end) = decode_questions(buf, HEADER_LEN as int, header.question_count as nat)->Ok_0;
    lemma_decoded_answers(buf, end, header.answer_count as nat);
}

/// Whether reading a message back from its wire form gives the message: the
/// header counts the questions and answers that the message holds, and each
/// of them is read back as it is.
pub open spec fn message_round_trips(m: MessageView) -> bool {
    &&& m.header.question_count == m.questions.len()
    &&& m.header.answer_count == m.answers.len()
    &&& forall|i: int|
        0 <= i < m.questions.len() ==> question_round_trips(#[trigger] m.questions[i])
    &&& forall|i: int| 0 <= i < m.answers.len() ==> answer_round_trips(#[trigger] m.answers[i])
}

/// A message as it is read back from its own wire form.
pub open spec fn message_read_back(m: MessageView) -> MessageView {
    MessageView {
        header: m.header,
        questions: m.questions.map_values(|q: QuestionView| question_read_back(q)),
        answers: m.answers.map_values(|a: AnswerView| answer_read_back(a)),
    }
}

/// The wire form of questions starts with that of the first.
pub proof fn lemma_encode_questions_first(q: QuestionView, rest: Seq<QuestionView>)
    ensures
        encode_questions(seq![q] + rest) == encode_question(q) + encode_questions(rest),
    decreases rest.len(),
{
    if rest.len() == 0 {
        let one = seq![q];
        assert(one + rest == one);
        assert(one.drop_last().len() == 0);
        assert(one.last() == q);
        assert(encode_questions(one) == encode_questions(one.drop_last()) + encode_question(q));
    } else {
        lemma_encode_questions_first(q, rest.drop_last());
        assert((seq![q] + rest).drop_last() == seq![q] + rest.drop_last());
        assert((seq![q] + rest).last() == rest.last());
    }
}

/// The wire form of answers starts with that of the first.
pub proof fn lemma_encode_answers_first(a: AnswerView, rest: Seq<AnswerView>)
    ensures
        encode_answers(seq![a] + rest) == encode_answer(a) + encode_answers(rest),
    decreases rest.len(),
{
    if rest.len() == 0 {
        let one = seq![a];
        assert(one + rest == one);
        assert(one.drop_last().len() == 0);
        assert(one.last() == a);
        assert(encode_answers(one) == encode_answers(one.drop_last()) + encode_answer(a));
    } else {
        lemma_encode_answers_first(a, rest.drop_last());
        assert((seq![a] + rest).drop_last() == seq![a] + rest.drop_last());
        assert((seq![a] + rest).last() == rest.last());
    }
}

/// Reading questions back from their wire form, whatever stands before and
/// behind it in the buffer, gives the questions, and ends where that form
/// ends.
pub proof fn lemma_questions_round_trip(
    before: Seq<u8>,
    questions: Seq<QuestionView>,
    behind: Seq<u8>,
)
    requires
        forall|i: int| 0 <= i < questions.len() ==> question_round_trips(#[trigger] questions[i]),
    ensures
        decode_questions(
            before + encode_questions(questions) + behind,
            before.len() as int,
            questions.len(),
        ) == Ok::<(Seq<QuestionView>, int), DnsError>(
            (
                questions.map_values(|q: QuestionView| question_read_back(q)),
                (before.len() + encode_questions(questions).len()) as int,
            ),
        ),
    decreases questions.len(),
{
    let buf = before + encode_questions(questions) + behind;
    let back = |q: QuestionView| question_read_back(q);
    if questions.len() == 0 {
        assert(questions.map_values(back) == Seq::<QuestionView>::empty());
    } else {
        let q = questions[0];
        let rest = questions.drop_first();
        assert(questions == seq![q] + rest);
        lemma_encode_questions_first(q, rest);
        let tail = encode_questions(rest) + behind;
        assert(buf == before + encode_question(q) + tail);
        lemma_question_round_trip(before, q, tail);
        let moved = before + encode_question(q);
        assert(buf == moved + encode_questions(rest) + behind);
        lemma_questions_round_trip(moved, rest, behind);
        assert(seq![question_read_back(q)] + rest.map_values(back) == questions.map_values(
            back,
        ));
    }
}

/// Reading answers back from their wire form, whatever stands before and
/// behind it in the buffer, gives the answers.
pub proof fn lemma_answers_round_trip(before: Seq<u8>, answers: Seq<AnswerView>, behind: Seq<u8>)
    requires
        forall|i: int| 0 <= i < answers.len() ==> answer_round_trips(#[trigger] answers[i]),
    ensures
        decode_answers(
            before + encode_answers(answers) + behind,
            before.len() as int,
            answers.len(),
        ) == Ok::<(Seq<AnswerView>, int), DnsError>(
            (
                answers.map_values(|a: AnswerView| answer_read_back(a)),
                (before.len() + encode_answers(answers).len()) as int,
            ),
        ),
    decreases answers.len(),
{
    let buf = before + encode_answers(answers) + behind;
    let back = |a: AnswerView| answer_read_back(a);
    if answers.len() == 0 {
        assert(answers.map_values(back) == Seq::<AnswerView>::empty());
    } else {
        let a = answers[0];
        let rest = answers.drop_first();
        assert(answers == seq![a] + rest);
        lemma_encode_answers_first(a, rest);
        let tail = encode_answers(rest) + behind;
        assert(buf == before + encode_answer(a) + tail);
        lemma_answer_round_trip(before, a, tail);
        let moved = before + encode_answer(a);
        assert(buf == moved + encode_answers(rest) + behind);
        lemma_answers_round_trip(moved, rest, behind);
        assert(seq![answer_read_back(a)] + rest.map_values(back) == answers.map_values(back));
    }
}

/// Reading a message back from its wire form, whatever follows that form in
/// the buffer, gives the message.
pub proof fn lemma_message_round_trip(m: MessageView, behind: Seq<u8>)
    requires
        message_round_trips(m),
    ensures
        decode_message(encode_message(m) + behind) == Ok::<MessageView, DnsError>(
            message_read_back(m),
        ),
{
    let head = encode_header(m.header);
    let questions = encode_questions(m.questions);
    let answers = encode_answers(m.answers);
    let buf = encode_message(m) + behind;
    lemma_header_round_trip(m.header);
    assert(head.len() == 12);
    assert(decode_header(buf) == decode_header(head)) by {
        assert forall|i: int| 0 <= i < 12 implies buf[i] == head[i] by {}
    }
    assert(buf == head + questions + (answers + behind));
    lemma_questions_round_trip(head, m.questions, answers + behind);
    assert(buf == (head + questions) + answers + behind);
    lemma_answers_round_trip(head + questions, m.answers, behind);
}

/// Questions read so far, before what is still to be read.
pub open spec fn prepend_questions(
    done: Seq<QuestionView>,
    rest: Result<(Seq<QuestionView>, int), DnsError>,
) -> Result<(Seq<QuestionView>, int), DnsError> {
    match rest {
        Err(e) => Err(e),
        Ok((more, end)) => Ok((done + more, end)),
    }
}

/// Answers read so far, before what is still to be read.
pub open spec fn prepend_answers(
    done: Seq<AnswerView>,
    rest: Result<(Seq<AnswerView>, int), DnsError>,
) -> Result<(Seq<AnswerView>, int), DnsError> {
    match rest {
        Err(e) => Err(e),
        Ok((more, end)) => Ok((done + more, end)),
    }
}

/// Whether every question can be written to the wire.
pub open spec fn questions_valid(questions: Seq<DnsQuestion>) -> bool {
    forall|i: int| 0 <= i < questions.len() ==> (#[trigger] questions[i]).valid()
}

/// Whether every answer can be written to the wire.
pub open spec fn answers_valid(answers: Seq<DnsAnswer>) -> bool {
    forall|i: int| 0 <= i < answers.len() ==> (#[trigger] answers[i]).valid()
}

/// Whether every message can be written to the wire.
pub open spec fn messages_valid(messages: Seq<DnsMessage>) -> bool {
    forall|i: int| 0 <= i < messages.len() ==> (#[trigger] messages[i]).valid()
}

/// The wire form of questions grows with each question.
pub proof fn lemma_encode_questions_prefix(questions: Seq<QuestionView>, n: int)
    requires
        0 <= n <= questions.len(),
    ensures
        encode_questions(questions.take(n)).len() <= encode_questions(questions).len(),
    decreases questions.len() - n,
{
    if n < questions.len() {
        lemma_encode_questions_prefix(questions, n + 1);
        assert(questions.take(n + 1).drop_last() == questions.take(n));
    } else {
        assert(questions.take(n) == questions);
    }
}

/// The wire form of answers grows with each answer.
pub proof fn lemma_encode_answers_prefix(answers: Seq<AnswerView>, n: int)
    requires
        0 <= n <= answers.len(),
    ensures
        encode_answers(answers.take(n)).len() <= encode_answers(answers).len(),
    decreases answers.len() - n,
{
    if n < answers.len() {
        lemma_encode_answers_prefix(answers, n + 1);
        assert(answers.take(n + 1).drop_last() == answers.take(n));
    } else {
        assert(answers.take(n) == answers);
    }
}

/// Appends the wire form of each question to `buf`.
fn put_questions(buf: &mut BytesMut, questions: &Vec<DnsQuestion>)
    requires
        questions_valid(questions@),
        buf_bytes(*old(buf)).len() + encode_questions(question_views(questions@)).len()
            <= isize::MAX,
    ensures
        buf_bytes(*final(buf)) == buf_bytes(*old(buf)) + encode_questions(
            question_views(questions@),
        ),
{
    let ghost views = question_views(questions@);
    let ghost before = buf_bytes(*buf);
    let mut i: usize = 0;
    while i < questions.len()
        invariant
            i <= questions@.len(),
            views == question_views(questions@),
            questions_valid(questions@),
            before.len() + encode_questions(views).len() <= isize::MAX,
            buf_bytes(*buf) == before + encode_questions(views.take(i as int)),
        decreases questions@.len() - i,
    {
        proof {
            lemma_encode_questions_prefix(views, i + 1);
            assert(views.take(i + 1).drop_last() == views.take(i as int));
            assert(views.take(i + 1).last() == questions@[i as int]@);
        }
        put_buf(buf, questions[i].as_buf());
        i += 1;
    }
    proof {
        assert(views.take(i as int) == views);
    }
}

/// Appends the wire form of each answer to `buf`.
fn put_answers(buf: &mut BytesMut, answers: &Vec<DnsAnswer>)
    requires
        answers_valid(answers@),
        buf_bytes(*old(buf)).len() + encode_answers(answer_views(answers@)).len() <= isize::MAX,
    ensures
        buf_bytes(*final(buf)) == buf_bytes(*old(buf)) + encode_answers(answer_views(answers@)),
{
    let ghost views = answer_views(answers@);
    let ghost before = buf_bytes(*buf);
    let mut i: usize = 0;
    while i < answers.len()
        invariant
            i <= answers@.len(),
            views == answer_views(answers@),
            answers_valid(answers@),
            before.len() + encode_answers(views).len() <= isize::MAX,
            buf_bytes(*buf) == before + encode_answers(views.take(i as int)),
        decreases answers@.len() - i,
    {
        proof {
            lemma_encode_answers_prefix(views, i + 1);
            assert(views.take(i + 1).drop_last() == views.take(i as int));
            assert(views.take(i + 1).last() == answers@[i as int]@);
        }
        put_buf(buf, answers[i].as_buf());
        i += 1;
    }
    proof {
        assert(views.take(i as int) == views);
    }
}

impl DnsMessage {
    /// Whether the message can be written to the wire: whether each of its
    /// questions and answers can.
    pub open spec fn valid(&self) -> bool {
        questions_valid(self.questions@) && answers_valid(self.answers@)
    }

    /// Whether the header counts as many questions and answers as the
    /// message holds.
    pub open spec fn counts_match(&self) -> bool {
        self.header.question_count == self.questions@.len() && self.header.answer_count
            == self.answers@.len()
    }

    /// A message of the given parts.
    pub fn new(
        header: DnsHeader,
        questions: Vec<DnsQuestion>,
        answers: Vec<DnsAnswer>,
        authorities: Vec<DnsAuthority>,
        additional: Vec<DnsAdditional>,
    ) -> (r: DnsMessage)
        ensures
            r.header == header,
            r.questions == questions,
            r.answers == answers,
            r.authorities == authorities,
            r.additional == additional,
    {
        DnsMessage { header, questions, answers, authorities, additional }
    }

    /// Writes the message in its wire form.
    pub fn as_buf(&self) -> (buf: BytesMut)
        requires
            self.valid(),
            fits(encode_message(self@)),
        ensures
            buf_bytes(buf) == encode_message(self@),
    {
        let mut buf = new_buf();
        put_buf(&mut buf, self.header.as_buf());
        put_questions(&mut buf, &self.questions);
        put_answers(&mut buf, &self.answers);
        buf
    }

    /// Writes a reply: the header and the answers of this message around the
    /// questions of the message it replies to.
    pub fn response(&self, received_message: &DnsMessage) -> (buf: BytesMut)
        requires
            questions_valid(received_message.questions@),
            answers_valid(self.answers@),
            fits(
                encode_message(
                    MessageView {
                        header: self.header,
                        questions: received_message@.questions,
                        answers: self@.answers,
                    },
                ),
            ),
        ensures
            buf_bytes(buf) == encode_message(
                MessageView {
                    header: self.header,
                    questions: received_message@.questions,
                    answers: self@.answers,
                },
            ),
    {
        let mut buf = new_buf();
        put_buf(&mut buf, self.header.as_buf());
        put_questions(&mut buf, &received_message.questions);
        put_answers(&mut buf, &self.answers);
        buf
    }

    /// Reads a message from a datagram. The header counts say how many
    /// questions and answers are read, and no more are.
    pub fn from(data: [u8; 512]) -> (r: Result<DnsMessage, DnsError>)
        ensures
            match r {
                Ok(m) => {
                    &&& decode_message(data@) == Ok::<MessageView, DnsError>(m@)
                    &&& m.valid()
                    &&& m.counts_match()
                    &&& m.authorities@.len() == 0
                    &&& m.additional@.len() == 0
                },
                Err(e) => decode_message(data@) == Err::<MessageView, DnsError>(e),
            },
    {
        let header = match DnsHeader::from(&data) {
            Ok(h) => h,
            Err(e) => {
                return Err(e);
            },
        };
        let mut next_section_skip: usize = HEADER_LEN;
        let mut questions: Vec<DnsQuestion> = Vec::new();
        let ghost all_questions = decode_questions(
            data@,
            HEADER_LEN as int,
            header.question_count as nat,
        );
        let mut i: u16 = 0;
        assert(Seq::<QuestionView>::empty() + question_views(questions@) == question_views(
            questions@,
        ));
        while i < header.question_count
            invariant
                i <= header.question_count,
                questions@.len() == i,
                questions_valid(questions@),
                next_section_skip <= 512,
                decode_header(data@) == Ok::<DnsHeader, DnsError>(header),
                all_questions == decode_questions(
                    data@,
                    HEADER_LEN as int,
                    header.question_count as nat,
                ),
                all_questions == prepend_questions(
                    question_views(questions@),
                    decode_questions(
                        data@,
                        next_section_skip as int,
                        (header.question_count - i) as nat,
                    ),
                ),
            decreases header.question_count - i,
        {
            let ghost done = question_views(questions@);
            let question = match DnsQuestion::from_buf(&data, next_section_skip) {
                Ok(q) => q,
                Err(e) => {
                    return Err(e);
                },
            };
            proof {
                lemma_resolved_name(data@, next_section_skip as int);
                let rest = decode_questions(
                    data@,
                    next_section_skip + question@.length,
                    (header.question_count - i - 1) as nat,
                );
                if rest is Ok {
                    assert(done + (seq![question@] + rest->Ok_0.0) == done.push(question@)
                        + rest->Ok_0.0);
                }
                assert(question_views(questions@.push(question)) == done.push(question@));
            }
            next_section_skip += question.length;
            questions.push(question);
            i += 1;
        }
        let ghost questions_end = next_section_skip;
        let mut answers: Vec<DnsAnswer> = Vec::new();
        let ghost all_answers = decode_answers(
            data@,
            questions_end as int,
            header.answer_count as nat,
        );
        let mut k: u16 = 0;
        assert(Seq::<AnswerView>::empty() + answer_views(answers@) == answer_views(answers@));
        assert(question_views(questions@) + Seq::<QuestionView>::empty() == question_views(
            questions@,
        ));
        while k < header.answer_count
            invariant
                k <= header.answer_count,
                answers@.len() == k,
                answers_valid(answers@),
                next_section_skip <= 512,
                decode_header(data@) == Ok::<DnsHeader, DnsError>(header),
                decode_questions(data@, HEADER_LEN as int, header.question_count as nat) == Ok::<
                    (Seq<QuestionView>, int),
                    DnsError,
                >((question_views(questions@), questions_end as int)),
                all_answers == decode_answers(
                    data@,
                    questions_end as int,
                    header.answer_count as nat,
                ),
                all_answers == prepend_answers(
                    answer_views(answers@),
                    decode_answers(
                        data@,
                        next_section_skip as int,
                        (header.answer_count - k) as nat,
                    ),
                ),
            decreases header.answer_count - k,
        {
            let ghost done = answer_views(answers@);
            let answer = match DnsAnswer::from_buf(&data, next_section_skip) {
                Ok(a) => a,
                Err(e) => {
                    return Err(e);
                },
            };
            proof {
                lemma_resolved_name(data@, next_section_skip as int);
                let rest = decode_answers(
                    data@,
                    next_section_skip + answer_span(answer@),
                    (header.answer_count - k - 1) as nat,
                );
                if rest is Ok {
                    assert(done + (seq![answer@] + rest->Ok_0.0) == done.push(answer@)
                        + rest->Ok_0.0);
                }
                assert(answer_views(answers@.push(answer)) == done.push(answer@));
            }
            next_section_skip += answer.name.length + RECORD_FIXED + answer.length;
            answers.push(answer);
            k += 1;
        }
        proof {
            assert(answer_views(answers@) + Seq::<AnswerView>::empty() == answer_views(answers@));
        }
        Ok(
            DnsMessage {
                header,
                questions,
                answers,
                authorities: Vec::new(),
                additional: Vec::new(),
            },
        )
    }

    /// The reply to a received message: a copy of each question, and for each
    /// the answer that the server makes up.
    pub fn new_from_received_message(received_message: &DnsMessage) -> (r: DnsMessage)
        requires
            received_message.questions@.len() <= u16::MAX,
            forall|i: int|
                0 <= i < received_message.questions@.len() ==> encode_name(
                    (#[trigger] received_message.questions@[i]).name.name@,
                ).len() <= usize::MAX,
        ensures
            r@ == build_reply(received_message@),
            r.counts_match(),
            r.authorities@.len() == 0,
            r.additional@.len() == 0,
            questions_valid(received_message.questions@) ==> r.valid(),
    {
        let mut questions: Vec<DnsQuestion> = Vec::new();
        let mut answers: Vec<DnsAnswer> = Vec::new();
        let ghost received = received_message@.questions;
        let mut i: usize = 0;
        while i < received_message.questions.len()
            invariant
                i <= received_message.questions@.len(),
                received == question_views(received_message.questions@),
                forall|k: int|
                    0 <= k < received_message.questions@.len() ==> encode_name(
                        (#[trigger] received_message.questions@[k]).name.name@,
                    ).len() <= usize::MAX,
                questions@ == received_message.questions@.take(i as int),
                answers@.len() == i,
                answer_views(answers@) == received.take(i as int).map_values(
                    |q: QuestionView| echo_answer(q),
                ),
                questions_valid(received_message.questions@) ==> answers_valid(answers@),
            decreases received_message.questions@.len() - i,
        {
            let question = &received_message.questions[i];
            let data: Vec<u8> = vec![8, 8, 8, 8];
            assert(data@ == reply_data());
            let answer = DnsAnswer::new(
                question.name.name.as_str(),
                question.qtype,
                question.qclass,
                REPLY_TTL,
                data,
            );
            proof {
                assert(answer@ == echo_answer(question@));
                assert(received.take(i + 1) == received.take(i as int).push(question@));
                assert(answer_views(answers@.push(answer)) == answer_views(answers@).push(
                    answer@,
                ));
                assert(received.take(i + 1).map_values(|q: QuestionView| echo_answer(q))
                    == received.take(i as int).map_values(|q: QuestionView| echo_answer(q)).push(
                    echo_answer(question@),
                ));
                assert(received_message.questions@.take(i + 1)
                    == received_message.questions@.take(i as int).push(*question));
            }
            answers.push(answer);
            questions.push(question.clone());
            i += 1;
        }
        proof {
            assert(received_message.questions@.take(i as int) == received_message.questions@);
            assert(received.take(i as int) == received);
        }
        let header = DnsHeader {
            id: received_message.header.id,
            query_response: DnsHeaderQR::Reply,
            opcode: received_message.header.opcode,
            authoritative_answer: DnsHeaderAA::NonAuthoritative,
            truncation: DnsHeaderTC::NotTruncated,
            recursion_desired: received_message.header.recursion_desired,
            recursion_available: DnsHeaderRA::RecursionAvailable,
            z: DnsHeaderZ::Reserved,
            rcode: match received_message.header.opcode {
                DnsHeaderOpcode::Query => DnsHeaderRcode::NoError,
                _ => DnsHeaderRcode::NotImplemented,
            },
            question_count: questions.len() as u16,
            answer_count: answers.len() as u16,
            authority_count: 0,
            additional_count: 0,
        };
        Self::new(header, questions, answers, Vec::new(), Vec::new())
    }

    /// Makes one message of several: the header of the first, all the
    /// questions and all the answers in the order of the messages, and
    /// QDCOUNT and ANCOUNT set to their numbers. The totals must fit the two
    /// 16-bit counts.
    pub fn merge(dns_messages: Vec<DnsMessage>) -> (r: Result<DnsMessage, DnsError>)
        requires
            all_questions(message_views(dns_messages@)).len() <= u16::MAX,
            all_answers(message_views(dns_messages@)).len() <= u16::MAX,
        ensures
            match r {
                Ok(m) => {
                    &&& merge_messages(message_views(dns_messages@)) == Ok::<
                        MessageView,
                        DnsError,
                    >(m@)
                    &&& m.counts_match()
                    &&& m.authorities@.len() == 0
                    &&& m.additional@.len() == 0
                    &&& messages_valid(dns_messages@) ==> m.valid()
                },
                Err(e) => merge_messages(message_views(dns_messages@)) == Err::<
                    MessageView,
                    DnsError,
                >(e),
            },
    {
        if dns_messages.len() == 0 {
            return Err(DnsError::EmptyMerge);
        }
        let mut dns_header = dns_messages[0].header;
        let ghost views = message_views(dns_messages@);
        let mut dns_questions: Vec<DnsQuestion> = Vec::new();
        let mut dns_answers: Vec<DnsAnswer> = Vec::new();
        for dns_message in it: dns_messages
            invariant
                it.seq() == dns_messages@,
                views == message_views(dns_messages@),
                question_views(dns_questions@) == all_questions(views.take(it.index() as int)),
                answer_views(dns_answers@) == all_answers(views.take(it.index() as int)),
                messages_valid(dns_messages@) ==> questions_valid(dns_questions@) && answers_valid(
                    dns_answers@,
                ),
        {
            let ghost n = it.index() as int;
            assert(dns_message == dns_messages@[n]);
            let DnsMessage { header: _, questions: mut questions, answers: mut answers, .. } =
                dns_message;
            proof {
                assert(views.take(n + 1).drop_last() == views.take(n));
                assert(views.take(n + 1).last() == dns_message@);
                assert(question_views(dns_questions@ + questions@) == question_views(
                    dns_questions@,
                ) + question_views(questions@));
                assert(answer_views(dns_answers@ + answers@) == answer_views(dns_answers@)
                    + answer_views(answers@));
            }
            dns_questions.append(&mut questions);
            dns_answers.append(&mut answers);
        }
        proof {
            assert(views.take(views.len() as int) == views);
        }
        dns_header.question_count = dns_questions.len() as u16;
        dns_header.answer_count = dns_answers.len() as u16;
        Ok(
            DnsMessage {
                header: dns_header,
                questions: dns_questions,
                answers: dns_answers,
                authorities: Vec::new(),
                additional: Vec::new(),
            },
        )
    }

    /// Whether the message can be written to the wire.
    pub fn is_valid(&self) -> (ok: bool)
        ensures
            ok == self.valid(),
    {
        let mut i: usize = 0;
        while i < self.questions.len()
            invariant
                i <= self.questions@.len(),
                forall|k: int| 0 <= k < i ==> (#[trigger] self.questions@[k]).valid(),
            decreases self.questions@.len() - i,
        {
            if !self.questions[i].is_valid() {
                return false;
            }
            i += 1;
        }
        let mut k: usize = 0;
        while k < self.answers.len()
            invariant
                k <= self.answers@.len(),
                questions_valid(self.questions@),
                forall|j: int| 0 <= j < k ==> (#[trigger] self.answers@[j]).valid(),
            decreases self.answers@.len() - k,
        {
            if !self.answers[k].is_valid() {
                return false;
            }
            k += 1;
        }
        true
    }

    /// The length of the wire form of the message, where a buffer can hold
    /// it.
    pub fn wire_len(&self) -> (r: Option<usize>)
        ensures
            r is Some <==> fits(encode_message(self@)),
            r matches Some(n) ==> n == encode_message(self@).len(),
    {
        let ghost questions = self@.questions;
        let ghost answers = self@.answers;
        let ghost whole = encode_message(self@).len();
        let limit = isize::MAX as usize;
        let mut total: usize = HEADER_LEN;
        let mut i: usize = 0;
        assert(whole == HEADER_LEN + encode_questions(questions).len() + encode_answers(
            answers,
        ).len());
        while i < self.questions.len()
            invariant
                i <= self.questions@.len(),
                questions == question_views(self.questions@),
                limit == isize::MAX,
                whole == HEADER_LEN + encode_questions(questions).len() + encode_answers(
                    answers,
                ).len(),
                whole == encode_message(self@).len(),
                total == HEADER_LEN + encode_questions(questions.take(i as int)).len(),
                total <= limit,
            decreases self.questions@.len() - i,
        {
            let ghost next = encode_questions(questions.take(i + 1)).len();
            proof {
                lemma_encode_questions_prefix(questions, i + 1);
                assert(questions.take(i + 1).drop_last() == questions.take(i as int));
                assert(questions.take(i + 1).last() == self.questions@[i as int]@);
                assert(next == total - HEADER_LEN + encode_question(
                    self.questions@[i as int]@,
                ).len());
                assert(HEADER_LEN + next <= whole);
            }
            match self.questions[i].wire_len() {
                Some(n) if n <= limit - total => {
                    total += n;
                },
                _ => {
                    assert(whole > limit);
                    return None;
                },
            }
            i += 1;
        }
        proof {
            assert(questions.take(i as int) == questions);
        }
        let mut k: usize = 0;
        while k < self.answers.len()
            invariant
                k <= self.answers@.len(),
                answers == answer_views(self.answers@),
                limit == isize::MAX,
                whole == HEADER_LEN + encode_questions(questions).len() + encode_answers(
                    answers,
                ).len(),
                whole == encode_message(self@).len(),
                total == HEADER_LEN + encode_questions(questions).len() + encode_answers(
                    answers.take(k as int),
                ).len(),
                total <= limit,
            decreases self.answers@.len() - k,
        {
            let ghost next = encode_answers(answers.take(k + 1)).len();
            proof {
                lemma_encode_answers_prefix(answers, k + 1);
                assert(answers.take(k + 1).drop_last() == answers.take(k as int));
                assert(answers.take(k + 1).last() == self.answers@[k as int]@);
                assert(next == encode_answers(answers.take(k as int)).len() + encode_answer(
                    self.answers@[k as int]@,
                ).len());
                assert(next <= encode_answers(answers).len());
            }
            match self.answers[k].wire_len() {
                Some(n) if n <= limit - total => {
                    total += n;
                },
                _ => {
                    assert(whole > limit);
                    return None;
                },
            }
            k += 1;
        }
        proof {
            assert(answers.take(k as int) == answers);
        }
        Some(total)
    }

    /// Writes the message in its wire form where it has one that a buffer
    /// can hold, and says so where it has none.
    pub fn try_as_buf(&self) -> (r: Option<BytesMut>)
        ensures
            r is Some <==> self.valid() && fits(encode_message(self@)),
            r matches Some(buf) ==> buf_bytes(buf) == encode_message(self@),
    {
        if self.is_valid() && self.wire_len().is_some() {
            Some(self.as_buf())
        } else {
            None
        }
    }

    /// Splits the message into the queries to send upstream: one for each
    /// question, under the header of the message, which then counts that one
    /// question and nothing else.
    pub fn split(&self) -> (r: Vec<DnsMessage>)
        ensures
            message_views(r@) == split_message(self@),
            forall|i: int|
                0 <= i < r@.len() ==> (#[trigger] r@[i]).counts_match() && r@[i].authorities@.len()
                    == 0 && r@[i].additional@.len() == 0,
            questions_valid(self.questions@) ==> messages_valid(r@),
    {
        let mut queries: Vec<DnsMessage> = Vec::new();
        let ghost questions = self@.questions;
        let ghost header = self.header;
        let mut i: usize = 0;
        while i < self.questions.len()
            invariant
                i <= self.questions@.len(),
                questions == question_views(self.questions@),
                header == self.header,
                queries@.len() == i,
                message_views(queries@) == questions.take(i as int).map_values(
                    |q: QuestionView| query_for(header, q),
                ),
                forall|k: int|
                    0 <= k < queries@.len() ==> (#[trigger] queries@[k]).counts_match()
                        && queries@[k].authorities@.len() == 0 && queries@[k].additional@.len()
                        == 0,
                questions_valid(self.questions@) ==> messages_valid(queries@),
            decreases self.questions@.len() - i,
        {
            let question = self.questions[i].clone();
            let mut query_header = self.header;
            query_header.question_count = 1;
            query_header.answer_count = 0;
            query_header.authority_count = 0;
            query_header.additional_count = 0;
            let mut one: Vec<DnsQuestion> = Vec::new();
            one.push(question);
            let query = DnsMessage {
                header: query_header,
                questions: one,
                answers: Vec::new(),
                authorities: Vec::new(),
                additional: Vec::new(),
            };
            proof {
                assert(query@.questions == seq![self.questions@[i as int]@]);
                assert(query@.answers == Seq::<AnswerView>::empty());
                assert(query@ == query_for(header, questions[i as int]));
                assert(message_views(queries@.push(query)) == message_views(queries@).push(
                    query@,
                ));
                assert(questions.take(i + 1) == questions.take(i as int).push(
                    questions[i as int],
                ));
                assert(questions.take(i + 1).map_values(|q: QuestionView| query_for(header, q))
                    == questions.take(i as int).map_values(
                    |q: QuestionView| query_for(header, q),
                ).push(query_for(header, questions[i as int])));
            }
            queries.push(query);
            i += 1;
        }
        proof {
            assert(questions.take(i as int) == questions);
        }
        queries
    }
}

} // verus!
