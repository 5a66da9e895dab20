//! Answers: resource records, each a name with its TYPE, CLASS, time to live
//! and data.

use crate::dns::buffer::{
    be16, be32, buf_bytes, fits, new_buf, put_buf, put_slice, put_u16, put_u32, read_u16,
    read_u32, word16, word32,
};
use crate::dns::common::{
    encode_name, lemma_code_round_trip, lemma_name_round_trip_within, lemma_resolved_name,
    resolve_name, valid_text, DnsClass, DnsName, DnsType, NameView,
};
use crate::dns::labels::is_canonical;
use crate::error::DnsError;
use bytes::BytesMut;
use vstd::prelude::*;
use vstd::slice::{slice_subrange, slice_to_vec};
use vstd::utf8::encode_utf8;

verus! {

/// The greatest length of the data of a record: RDLENGTH has 16 bits.
pub const MAX_RDATA: usize = 0xFFFF;

/// The bytes of a record between its name and its data: TYPE, CLASS, TTL and
/// RDLENGTH.
pub const RECORD_FIXED: usize = 10;

/// One resource record of the answer section.
#[derive(Debug, PartialEq, Eq)]
pub struct DnsAnswer {
    pub name: DnsName,
    pub qtype: DnsType,
    pub qclass: DnsClass,
    /// The time, in seconds, for which the record may be kept.
    pub ttl: u32,
    /// RDLENGTH: the number of bytes of `data`.
    pub length: usize,
    /// RDATA: the data of the record, which the codec does not look into.
    pub data: Vec<u8>,
}

/// A record as plain values.
pub struct AnswerView {
    pub name: NameView,
    pub qtype: DnsType,
    pub qclass: DnsClass,
    pub ttl: u32,
    pub length: nat,
    pub data: Seq<u8>,
}

impl View for DnsAnswer {
    type V = AnswerView;

    open spec fn view(&self) -> AnswerView {
        AnswerView {
            name: self.name@,
            qtype: self.qtype,
            qclass: self.qclass,
            ttl: self.ttl,
            length: self.length as nat,
            data: self.data@,
        }
    }
}

/// The wire form of a record: the name, then TYPE and CLASS as two bytes
/// each, the TTL as four, RDLENGTH as two, all big-endian, then the data.
pub open spec fn encode_answer(a: AnswerView) -> Seq<u8> {
    encode_name(a.name.text) + be16(a.qtype.code()) + be16(a.qclass.code()) + be32(a.ttl) + be16(
        a.length as u16,
    ) + a.data
}

/// The number of bytes that a record read from the wire took up there.
pub open spec fn answer_span(a: AnswerView) -> nat {
    a.name.length + RECORD_FIXED as nat + a.data.len()
}

/// The record that starts at `start`. Its name is read whole, a pointer
/// followed once; the fixed fields stand right behind the bytes of the name
/// at `start`, and exactly RDLENGTH bytes of data follow them. The errors
/// come in this order: a start beyond the buffer, a malformed name, fixed
/// fields that are not all there, an unknown TYPE, an unknown CLASS, data
/// that is not all there.
pub open spec fn decode_answer(buf: Seq<u8>, start: int) -> Result<AnswerView, DnsError> {
    if start >= buf.len() {
        Err(DnsError::TruncatedBuffer)
    } else {
        match resolve_name(buf, start) {
            None => Err(DnsError::MalformedName),
            Some(name) => {
                let at = start + name.length;
                if at + RECORD_FIXED > buf.len() {
                    Err(DnsError::TruncatedBuffer)
                } else {
                    match DnsType::of_code(word16(buf[at], buf[at + 1])) {
                        Err(e) => Err(e),
                        Ok(qtype) => match DnsClass::of_code(word16(buf[at + 2], buf[at + 3])) {
                            Err(e) => Err(e),
                            Ok(qclass) => {
                                let length = word16(buf[at + 8], buf[at + 9]);
                                let from = at + RECORD_FIXED;
                                if from + length > buf.len() {
                                    Err(DnsError::TruncatedBuffer)
                                } else {
                                    Ok(
                                        AnswerView {
                                            name,
                                            qtype,
                                            qclass,
                                            ttl: word32(
                                                buf[at + 4],
                                                buf[at + 5],
                                                buf[at + 6],
                                                buf[at + 7],
                                            ),
                                            length: length as nat,
                                            data: buf.subrange(from, from + length),
                                        },
                                    )
                                }
                            },
                        },
                    }
                }
            },
        }
    }
}

/// Whether reading a record back from its wire form gives the record: its
/// name can be written and spells its labels and nothing else, and `length`
/// is the length of its data and fits RDLENGTH.
pub open spec fn answer_round_trips(a: AnswerView) -> bool {
    &&& valid_text(a.name.text)
    &&& is_canonical(encode_utf8(a.name.text))
    &&& a.length == a.data.len()
    &&& a.length <= MAX_RDATA
}

/// A record as it is read back from its own wire form: the name has the
/// length of its wire form and no pointer.
pub open spec fn answer_read_back(a: AnswerView) -> AnswerView {
    AnswerView {
        name: NameView {
            text: a.name.text,
            offset: None,
            length: encode_name(a.name.text).len(),
        },
        ..a
    }
}

/// Reading a record back from its wire form, whatever stands before and
/// behind it in the buffer, gives the record, and the bytes it took up are
/// those of the wire form.
pub proof fn lemma_answer_round_trip(before: Seq<u8>, a: AnswerView, behind: Seq<u8>)
    requires
        answer_round_trips(a),
    ensures
        decode_answer(before + encode_answer(a) + behind, before.len() as int) == Ok::<
            AnswerView,
            DnsError,
        >(answer_read_back(a)),
        answer_span(answer_read_back(a)) == encode_answer(a).len(),
{
    let buf = before + encode_answer(a) + behind;
    let name = encode_name(a.name.text);
    let fixed = be16(a.qtype.code()) + be16(a.qclass.code()) + be32(a.ttl) + be16(a.length as u16);
    assert(fixed.len() == 10);
    assert(buf == before + name + (fixed + a.data + behind));
    lemma_name_round_trip_within(before, a.name.text, fixed + a.data + behind);
    lemma_code_round_trip(a.qtype, a.qclass);
    let at = (before.len() + name.len()) as int;
    assert forall|i: int| 0 <= i < 10 implies buf[at + i] == fixed[i] by {}
    assert(fixed[0] == be16(a.qtype.code())[0]);
    assert(fixed[1] == be16(a.qtype.code())[1]);
    assert(fixed[2] == be16(a.qclass.code())[0]);
    assert(fixed[3] == be16(a.qclass.code())[1]);
    assert(fixed[4] == be32(a.ttl)[0]);
    assert(fixed[5] == be32(a.ttl)[1]);
    assert(fixed[6] == be32(a.ttl)[2]);
    assert(fixed[7] == be32(a.ttl)[3]);
    assert(fixed[8] == be16(a.length as u16)[0]);
    assert(fixed[9] == be16(a.length as u16)[1]);
    assert(word16(buf[at + 8], buf[at + 9]) == a.length);
    assert(word32(buf[at + 4], buf[at + 5], buf[at + 6], buf[at + 7]) == a.ttl);
    assert(buf.subrange(at + 10, at + 10 + a.length) == a.data);
}

impl DnsAnswer {
    /// Whether the record can be written to the wire: its name can, and
    /// `length` is the length of its data and fits RDLENGTH.
    pub open spec fn valid(&self) -> bool {
        &&& self.name.valid()
        &&& self.length == self.data@.len()
        &&& self.length <= MAX_RDATA
    }

    /// A record for `name`. Its `length` is the length of `data`.
    pub fn new(name: &str, qtype: DnsType, qclass: DnsClass, ttl: u32, data: Vec<u8>) -> (r:
        DnsAnswer)
        requires
            encode_name(name@).len() <= usize::MAX,
        ensures
            r@ == (AnswerView {
                name: NameView { text: name@, offset: None, length: encode_name(name@).len() },
                qtype,
                qclass,
                ttl,
                length: data@.len(),
                data: data@,
            }),
    {
        let length = data.len();
        DnsAnswer { name: DnsName::new(name.to_owned()), qtype, qclass, ttl, length, data }
    }

    /// Whether the record can be written to the wire.
    pub fn is_valid(&self) -> (ok: bool)
        ensures
            ok == self.valid(),
    {
        self.name.is_valid() && self.length == self.data.len() && self.length <= MAX_RDATA
    }

    /// The length of the wire form of the record, where a buffer can hold it.
    pub fn wire_len(&self) -> (r: Option<usize>)
        ensures
            r is Some <==> fits(encode_answer(self@)),
            r matches Some(n) ==> n == encode_answer(self@).len(),
    {
        match self.name.wire_len() {
            Some(n) if n <= isize::MAX as usize - RECORD_FIXED && self.data.len()
                <= isize::MAX as usize - RECORD_FIXED - n => Some(
                n + RECORD_FIXED + self.data.len(),
            ),
            _ => None,
        }
    }

    /// Writes the record in its wire form.
    pub fn as_buf(&self) -> (buf: BytesMut)
        requires
            self.valid(),
            fits(encode_answer(self@)),
        ensures
            buf_bytes(buf) == encode_answer(self@),
    {
        let mut buf = new_buf();
        put_buf(&mut buf, self.name.as_buf());
        put_u16(&mut buf, self.qtype.code());
        put_u16(&mut buf, self.qclass.code());
        put_u32(&mut buf, self.ttl);
        put_u16(&mut buf, self.length as u16);
        put_slice(&mut buf, self.data.as_slice());
        assert(buf_bytes(buf) == encode_answer(self@));
        buf
    }

    /// Reads the record that starts at `start` of a datagram.
    pub fn from_buf(data: &[u8; 512], start: usize) -> (r: Result<DnsAnswer, DnsError>)
        ensures
            match r {
                Ok(a) => decode_answer(data@, start as int) == Ok::<AnswerView, DnsError>(a@)
                    && a.valid(),
                Err(e) => decode_answer(data@, start as int) == Err::<AnswerView, DnsError>(e),
            },
    {
        if start >= data.len() {
            return Err(DnsError::TruncatedBuffer);
        }
        let name = match DnsName::from_buf(data, start) {
            Ok(name) => name,
            Err(e) => {
                return Err(e);
            },
        };
        proof {
            lemma_resolved_name(data@, start as int);
        }
        let at = start + name.length;
        if data.len() - at < RECORD_FIXED {
            return Err(DnsError::TruncatedBuffer);
        }
        let qtype = match DnsType::from(read_u16(data, at)) {
            Ok(v) => v,
            Err(e) => {
                return Err(e);
            },
        };
        let qclass = match DnsClass::from(read_u16(data, at + 2)) {
            Ok(v) => v,
            Err(e) => {
                return Err(e);
            },
        };
        let ttl = read_u32(data, at + 4);
        let length = read_u16(data, at + 8) as usize;
        let from = at + RECORD_FIXED;
        if data.len() - from < length {
            return Err(DnsError::TruncatedBuffer);
        }
        let rdata = slice_to_vec(slice_subrange(data, from, from + length));
        Ok(DnsAnswer { name, qtype, qclass, ttl, length, data: rdata })
    }
}

} // verus!
