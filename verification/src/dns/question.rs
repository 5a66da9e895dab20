//! Questions: a name with the TYPE and CLASS asked for.

use crate::dns::buffer::{be16, buf_bytes, fits, new_buf, put_buf, put_u16, read_u16, word16};
use crate::dns::common::{
    encode_name, lemma_code_round_trip, lemma_name_round_trip_within, lemma_resolved_name,
    resolve_name, valid_text, DnsClass, DnsName, DnsType, NameView,
};
use crate::dns::labels::is_canonical;
use crate::error::DnsError;
use bytes::BytesMut;
use vstd::prelude::*;
use vstd::utf8::encode_utf8;

verus! {

/// One entry of the question section.
#[derive(Debug, PartialEq, Eq)]
pub struct DnsQuestion {
    pub name: DnsName,
    pub qtype: DnsType,
    pub qclass: DnsClass,
    /// The number of bytes that the question took up where it was read; zero
    /// for a question that was not read from the wire.
    pub length: usize,
}

impl Clone for DnsQuestion {
    fn clone(&self) -> (r: Self)
        ensures
            r == *self,
    {
        DnsQuestion {
            name: self.name.clone(),
            qtype: self.qtype,
            qclass: self.qclass,
            length: self.length,
        }
    }
}

/// A question as plain values.
pub struct QuestionView {
    pub name: NameView,
    pub qtype: DnsType,
    pub qclass: DnsClass,
    pub length: nat,
}

impl View for DnsQuestion {
    type V = QuestionView;

    open spec fn view(&self) -> QuestionView {
        QuestionView {
            name: self.name@,
            qtype: self.qtype,
            qclass: self.qclass,
            length: self.length as nat,
        }
    }
}

/// The wire form of a question: the name, then TYPE and CLASS, each as two
/// big-endian bytes.
pub open spec fn encode_question(q: QuestionView) -> Seq<u8> {
    encode_name(q.name.text) + be16(q.qtype.code()) + be16(q.qclass.code())
}

/// The question that starts at `start`. Its name is read whole, a pointer
/// followed once; TYPE and CLASS stand right behind the bytes of the name at
/// `start`. The errors come in this order: a start beyond the buffer, a
/// malformed name, four bytes that are not all there, an unknown TYPE, an
/// unknown CLASS.
pub open spec fn decode_question(buf: Seq<u8>, start: int) -> Result<QuestionView, DnsError> {
    if start >= buf.len() {
        Err(DnsError::TruncatedBuffer)
    } else {
        match resolve_name(buf, start) {
            None => Err(DnsError::MalformedName),
            Some(name) => {
                let at = start + name.length;
                if at + 4 > buf.len() {
                    Err(DnsError::TruncatedBuffer)
                } else {
                    match DnsType::of_code(word16(buf[at], buf[at + 1])) {
                        Err(e) => Err(e),
                        Ok(qtype) => match DnsClass::of_code(word16(buf[at + 2], buf[at + 3])) {
                            Err(e) => Err(e),
                            Ok(qclass) => Ok(
                                QuestionView { name, qtype, qclass, length: name.length + 4 },
                            ),
                        },
                    }
                }
            },
        }
    }
}

/// Whether reading a question back from its wire form gives the question:
/// whether its name can be written and spells its labels and nothing else.
pub open spec fn question_round_trips(q: QuestionView) -> bool {
    valid_text(q.name.text) && is_canonical(encode_utf8(q.name.text))
}

/// A question as it is read back from its own wire form: the lengths are
/// those of the wire form, and the name has no pointer.
pub open spec fn question_read_back(q: QuestionView) -> QuestionView {
    QuestionView {
        name: NameView {
            text: q.name.text,
            offset: None,
            length: encode_name(q.name.text).len(),
        },
        qtype: q.qtype,
        qclass: q.qclass,
        length: encode_question(q).len(),
    }
}

/// Reading a question back from its wire form, whatever stands before and
/// behind it in the buffer, gives the question.
pub proof fn lemma_question_round_trip(before: Seq<u8>, q: QuestionView, behind: Seq<u8>)
    requires
        question_round_trips(q),
    ensures
        decode_question(before + encode_question(q) + behind, before.len() as int) == Ok::<
            QuestionView,
            DnsError,
        >(question_read_back(q)),
{
    let buf = before + encode_question(q) + behind;
    let name = encode_name(q.name.text);
    let fixed = be16(q.qtype.code()) + be16(q.qclass.code());
    assert(buf == before + name + (fixed + behind));
    lemma_name_round_trip_within(before, q.name.text, fixed + behind);
    lemma_code_round_trip(q.qtype, q.qclass);
    let at = (before.len() + name.len()) as int;
    assert(buf[at] == be16(q.qtype.code())[0]);
    assert(buf[at + 1] == be16(q.qtype.code())[1]);
    assert(buf[at + 2] == be16(q.qclass.code())[0]);
    assert(buf[at + 3] == be16(q.qclass.code())[1]);
}

impl DnsQuestion {
    /// Whether the question can be written to the wire: whether its name can.
    pub open spec fn valid(&self) -> bool {
        self.name.valid()
    }

    /// A question about `name`.
    pub fn new(name: &str, qtype: DnsType, qclass: DnsClass) -> (r: DnsQuestion)
        requires
            encode_name(name@).len() <= usize::MAX,
        ensures
            r@ == (QuestionView {
                name: NameView { text: name@, offset: None, length: encode_name(name@).len() },
                qtype,
                qclass,
                length: 0,
            }),
    {
        DnsQuestion { name: DnsName::new(name.to_owned()), qtype, qclass, length: 0 }
    }

    /// Whether the question can be written to the wire.
    pub fn is_valid(&self) -> (ok: bool)
        ensures
            ok == self.valid(),
    {
        self.name.is_valid()
    }

    /// The length of the wire form of the question, where a buffer can hold
    /// it.
    pub fn wire_len(&self) -> (r: Option<usize>)
        ensures
            r is Some <==> fits(encode_question(self@)),
            r matches Some(n) ==> n == encode_question(self@).len(),
    {
        match self.name.wire_len() {
            Some(n) if n <= isize::MAX as usize - 4 => Some(n + 4),
            _ => None,
        }
    }

    /// Writes the question in its wire form.
    pub fn as_buf(&self) -> (buf: BytesMut)
        requires
            self.valid(),
            fits(encode_question(self@)),
        ensures
            buf_bytes(buf) == encode_question(self@),
    {
        let mut buf = new_buf();
        put_buf(&mut buf, self.name.as_buf());
        put_u16(&mut buf, self.qtype.code());
        put_u16(&mut buf, self.qclass.code());
        assert(buf_bytes(buf) == encode_question(self@));
        buf
    }

    /// Reads the question that starts at `start_index` of a datagram.
    pub fn from_buf(data: &[u8; 512], start_index: usize) -> (r: Result<DnsQuestion, DnsError>)
        ensures
            match r {
                Ok(q) => decode_question(data@, start_index as int) == Ok::<QuestionView, DnsError>(
                    q@,
                ) && q.valid(),
                Err(e) => decode_question(data@, start_index as int) == Err::<
                    QuestionView,
                    DnsError,
                >(e),
            },
    {
        if start_index >= data.len() {
            return Err(DnsError::TruncatedBuffer);
        }
        let name = match DnsName::from_buf(data, start_index) {
            Ok(name) => name,
            Err(e) => {
                return Err(e);
            },
        };
        proof {
            lemma_resolved_name(data@, start_index as int);
        }
        let at = start_index + name.length;
        if data.len() - at < 4 {
            return Err(DnsError::TruncatedBuffer);
        }
        let qtype = match DnsType::from(read_u16(data, at)) {
            Ok(v) => v,
            Err(e) => {
                return Err(e);
            },
        };
        let qclass = match DnsClass::from(read_u16(data, at + 2)) {
            Ok(v) => v,
            Err(e) => {
                return Err(e);
            },
        };
        let length = name.length + 4;
        Ok(DnsQuestion { name, qtype, qclass, length })
    }
}

} // verus!
