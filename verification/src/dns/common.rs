//! What questions and records share: the TYPE and CLASS codes, and names.

use crate::dns::buffer::{buf_bytes, fits, new_buf, put_slice, put_u8};
use crate::dns::labels::{
    encode_labels, is_ascii_bytes, join_labels, label_end, label_next, label_ok,
    labels_of, labels_ok, lemma_encode_first, lemma_first_dot_is, lemma_join_concat,
    lemma_join_labels_of, lemma_join_labels_ok, lemma_join_ok, lemma_join_push,
    lemma_labels_bound, lemma_labels_ok_concat, lemma_labels_step, lemma_read_encoded,
    lemma_run_facts, is_canonical, prepend_run, read_labels, resolve_labels, LabelRun, DOT,
    MAX_LABEL, POINTER_TAG,
};
use crate::dns::text::{ascii_string, bytes_text, lemma_ascii_text, lemma_text_of_ascii};
use crate::error::DnsError;
use bytes::BytesMut;
use vstd::prelude::*;
use vstd::slice::slice_subrange;
use vstd::string::StringExecFnsIsAscii;
use vstd::utf8::{encode_utf8, is_ascii_chars};

verus! {

/// TYPE: the kind of a record.
#[derive(Copy, Clone, Debug, PartialEq, Eq, Structural)]
pub enum DnsType {
    A,
    NS,
    CNAME,
    SOA,
    WKS,
    PTR,
}

impl DnsType {
    /// The number that stands for the type on the wire.
    pub open spec fn spec_code(self) -> u16 {
        match self {
            DnsType::A => 1,
            DnsType::NS => 2,
            DnsType::CNAME => 5,
            DnsType::SOA => 6,
            DnsType::WKS => 11,
            DnsType::PTR => 12,
        }
    }

    /// The type that a number stands for, or the error for a number that
    /// stands for none.
    pub open spec fn of_code(value: u16) -> Result<Self, DnsError> {
        if value == 1 {
            Ok(DnsType::A)
        } else if value == 2 {
            Ok(DnsType::NS)
        } else if value == 5 {
            Ok(DnsType::CNAME)
        } else if value == 6 {
            Ok(DnsType::SOA)
        } else if value == 11 {
            Ok(DnsType::WKS)
        } else if value == 12 {
            Ok(DnsType::PTR)
        } else {
            Err(DnsError::InvalidType)
        }
    }

    /// The number that stands for the type on the wire.
    #[verifier::when_used_as_spec(spec_code)]
    pub fn code(self) -> (c: u16)
        ensures
            c == self.spec_code(),
    {
        match self {
            DnsType::A => 1,
            DnsType::NS => 2,
            DnsType::CNAME => 5,
            DnsType::SOA => 6,
            DnsType::WKS => 11,
            DnsType::PTR => 12,
        }
    }

    /// The type that `value` stands for.
    pub fn from(value: u16) -> (r: Result<Self, DnsError>)
        ensures
            r == Self::of_code(value),
    {
        match value {
            1 => Ok(DnsType::A),
            2 => Ok(DnsType::NS),
            5 => Ok(DnsType::CNAME),
            6 => Ok(DnsType::SOA),
            11 => Ok(DnsType::WKS),
            12 => Ok(DnsType::PTR),
            _ => Err(DnsError::InvalidType),
        }
    }
}

/// CLASS: the protocol family of a record.
#[derive(Copy, Clone, Debug, PartialEq, Eq, Structural)]
pub enum DnsClass {
    IN,
    CS,
    CH,
    HS,
}

impl DnsClass {
    /// The number that stands for the class on the wire.
    pub open spec fn spec_code(self) -> u16 {
        match self {
            DnsClass::IN => 1,
            DnsClass::CS => 2,
            DnsClass::CH => 3,
            DnsClass::HS => 4,
        }
    }

    /// The class that a number stands for, or the error for a number that
    /// stands for none.
    pub open spec fn of_code(value: u16) -> Result<Self, DnsError> {
        if value == 1 {
            Ok(DnsClass::IN)
        } else if value == 2 {
            Ok(DnsClass::CS)
        } else if value == 3 {
            Ok(DnsClass::CH)
        } else if value == 4 {
            Ok(DnsClass::HS)
        } else {
            Err(DnsError::InvalidClass)
        }
    }

    /// The number that stands for the class on the wire.
    #[verifier::when_used_as_spec(spec_code)]
    pub fn code(self) -> (c: u16)
        ensures
            c == self.spec_code(),
    {
        match self {
            DnsClass::IN => 1,
            DnsClass::CS => 2,
            DnsClass::CH => 3,
            DnsClass::HS => 4,
        }
    }

    /// The class that `value` stands for.
    pub fn from(value: u16) -> (r: Result<Self, DnsError>)
        ensures
            r == Self::of_code(value),
    {
        match value {
            1 => Ok(DnsClass::IN),
            2 => Ok(DnsClass::CS),
            3 => Ok(DnsClass::CH),
            4 => Ok(DnsClass::HS),
            _ => Err(DnsError::InvalidClass),
        }
    }
}

/// The code of a TYPE or of a CLASS stands for that TYPE or CLASS.
pub proof fn lemma_code_round_trip(qtype: DnsType, qclass: DnsClass)
    ensures
        DnsType::of_code(qtype.code()) == Ok::<DnsType, DnsError>(qtype),
        DnsClass::of_code(qclass.code()) == Ok::<DnsClass, DnsError>(qclass),
{
}

/// A domain name.
#[derive(Debug, PartialEq, Eq)]
pub struct DnsName {
    /// The labels of the name, joined by dots.
    pub name: String,
    /// The target of the compression pointer that ended the name where it was
    /// read, until the pointer is followed.
    pub offset: Option<usize>,
    /// The number of bytes that the name takes up on the wire.
    pub length: usize,
}

impl Clone for DnsName {
    fn clone(&self) -> (r: Self)
        ensures
            r == *self,
    {
        DnsName { name: self.name.clone(), offset: self.offset, length: self.length }
    }
}

/// A name as plain values.
pub struct NameView {
    pub text: Seq<char>,
    pub offset: Option<nat>,
    pub length: nat,
}

impl View for DnsName {
    type V = NameView;

    open spec fn view(&self) -> NameView {
        NameView {
            text: self.name@,
            offset: match self.offset {
                Some(target) => Some(target as nat),
                None => None,
            },
            length: self.length as nat,
        }
    }
}

/// The wire form of a name given by its text: each label of the text after a
/// byte that gives its length, then a zero byte. The empty labels that
/// neighbouring dots leave are passed over, so the empty text is the root.
pub open spec fn encode_name(text: Seq<char>) -> Seq<u8> {
    encode_labels(labels_of(encode_utf8(text))) + seq![0u8]
}

/// Whether a text can be written as a name: it is ASCII, and none of its
/// labels is longer than 63 bytes.
pub open spec fn valid_text(text: Seq<char>) -> bool {
    is_ascii_chars(text) && labels_ok(labels_of(encode_utf8(text)))
}

/// The name that one run of labels gives, with the target of its pointer
/// still to be followed.
pub open spec fn read_name(buf: Seq<u8>, start: int) -> Option<NameView> {
    match read_labels(buf, start) {
        None => None,
        Some(run) => Some(
            NameView {
                text: bytes_text(join_labels(run.labels)),
                offset: match run.pointer {
                    Some(target) => Some(target as nat),
                    None => None,
                },
                length: run.consumed as nat,
            },
        ),
    }
}

/// The whole name that starts at `start`, a pointer followed once.
pub open spec fn resolve_name(buf: Seq<u8>, start: int) -> Option<NameView> {
    match resolve_labels(buf, start) {
        None => None,
        Some((labels, consumed)) => Some(
            NameView {
                text: bytes_text(join_labels(labels)),
                offset: None,
                length: consumed as nat,
            },
        ),
    }
}

/// The wire form of a name is at most two bytes longer than its text.
pub proof fn lemma_name_wire_bound(text: Seq<char>)
    ensures
        1 <= encode_name(text).len() <= encode_utf8(text).len() + 2,
{
    lemma_labels_bound(encode_utf8(text));
}

/// What holds of every name read whole from a buffer: its text can be
/// written as a name again, the name lies within the buffer, and neither its
/// text nor its wire form is long.
pub proof fn lemma_resolved_name(buf: Seq<u8>, start: int)
    requires
        resolve_name(buf, start) is Some,
    ensures
        ({
            let name = resolve_name(buf, start)->0;
            &&& valid_text(name.text)
            &&& 1 <= name.length
            &&& 0 <= start
            &&& start + name.length <= buf.len()
            &&& name.text.len() < 2 * buf.len()
            &&& encode_name(name.text).len() <= 2 * buf.len() + 1
        }),
{
    let run = read_labels(buf, start)->0;
    lemma_run_facts(buf, start);
    let (labels, _) = resolve_labels(buf, start)->0;
    if run.pointer is Some {
        let target = run.pointer->0;
        let tail = read_labels(buf, target)->0;
        lemma_run_facts(buf, target);
        lemma_labels_ok_concat(run.labels, tail.labels);
        lemma_join_concat(run.labels, tail.labels);
    }
    lemma_join_labels_ok(labels);
    lemma_ascii_text(join_labels(labels));
    lemma_name_wire_bound(bytes_text(join_labels(labels)));
}

/// Reading a name back from its wire form, whatever stands before and behind
/// it in the buffer, gives the text it was written from, the length of that
/// form, and no pointer. This holds of every text that can be written as a
/// name and that spells its labels and nothing else.
pub proof fn lemma_name_round_trip_within(before: Seq<u8>, text: Seq<char>, behind: Seq<u8>)
    requires
        valid_text(text),
        is_canonical(encode_utf8(text)),
    ensures
        read_name(before + encode_name(text) + behind, before.len() as int) == Some(
            NameView { text, offset: None, length: encode_name(text).len() },
        ),
        resolve_name(before + encode_name(text) + behind, before.len() as int) == read_name(
            before + encode_name(text) + behind,
            before.len() as int,
        ),
{
    let bytes = encode_utf8(text);
    lemma_read_encoded(before, labels_of(bytes), behind);
    lemma_join_labels_of(bytes);
    lemma_text_of_ascii(text);
}

/// Reading back the wire form of a name gives the text it was written from,
/// the length of that form, and no pointer. This holds of every text that
/// can be written as a name and that spells its labels and nothing else:
/// with an empty label in it, as in `a..b`, what is read back is `a.b`.
pub proof fn lemma_name_round_trip(text: Seq<char>)
    requires
        valid_text(text),
        is_canonical(encode_utf8(text)),
    ensures
        read_name(encode_name(text), 0) == Some(
            NameView { text, offset: None, length: encode_name(text).len() },
        ),
        resolve_name(encode_name(text), 0) == read_name(encode_name(text), 0),
{
    lemma_name_round_trip_within(Seq::empty(), text, Seq::empty());
    assert(Seq::<u8>::empty() + encode_name(text) + Seq::<u8>::empty() == encode_name(text));
}

/// The pointer of a run as a plain value.
spec fn pointer_of(run: LabelRun) -> Option<usize> {
    match run.pointer {
        Some(target) => Some(target as usize),
        None => None,
    }
}

/// Reads the run of labels at `start` and appends its labels to `text`, which
/// holds the text of the labels `before`.
#[verifier::loop_isolation(false)]
fn read_run(
    data: &[u8],
    start: usize,
    text: &mut Vec<u8>,
    Ghost(before): Ghost<Seq<Seq<u8>>>,
) -> (r: Option<(usize, Option<usize>)>)
    requires
        old(text)@ == join_labels(before),
        labels_ok(before),
    ensures
        match r {
            None => read_labels(data@, start as int) is None,
            Some((consumed, pointer)) => {
                &&& read_labels(data@, start as int) matches Some(run)
                &&& run.consumed == consumed
                &&& pointer_of(run) == pointer
                &&& final(text)@ == join_labels(before + run.labels)
            },
        },
{
    if start >= data.len() {
        return None;
    }
    let mut pos = start;
    let ghost mut labels: Seq<Seq<u8>> = Seq::empty();
    assert(before + labels == before);
    while pos < data.len()
        invariant
            start <= pos <= data@.len(),
            labels_ok(before + labels),
            text@ == join_labels(before + labels),
            read_labels(data@, start as int) == prepend_run(
                labels,
                pos - start,
                read_labels(data@, pos as int),
            ),
        decreases data@.len() - pos,
    {
        let b = data[pos];
        if b >= POINTER_TAG {
            if data.len() - pos < 2 {
                return None;
            }
            let target = (b - POINTER_TAG) as usize * 256 + data[pos + 1] as usize;
            proof {
                assert(labels + Seq::<Seq<u8>>::empty() == labels);
            }
            return Some((pos - start + 2, Some(target)));
        } else if b == 0 {
            proof {
                assert(labels + Seq::<Seq<u8>>::empty() == labels);
            }
            return Some((pos - start + 1, None));
        } else if b > MAX_LABEL || b as usize > data.len() - pos - 1 {
            return None;
        }
        let end = pos + 1 + b as usize;
        let ghost label = data@.subrange(pos + 1, end as int);
        let ghost so_far = before + labels;
        proof {
            lemma_join_ok(so_far);
        }
        if text.len() > 0 {
            text.push(DOT);
        }
        let ghost stem = text@;
        let mut k = pos + 1;
        while k < end
            invariant
                pos + 1 <= k <= end <= data@.len(),
                text@ == stem + data@.subrange(pos + 1, k as int),
                is_ascii_bytes(data@.subrange(pos + 1, k as int)),
            decreases end - k,
        {
            let c = data[k];
            if c >= 128 {
                proof {
                    assert(label[k - pos - 1] == c);
                }
                return None;
            }
            text.push(c);
            proof {
                assert(data@.subrange(pos + 1, k + 1) == data@.subrange(pos + 1, k as int).push(c));
            }
            k += 1;
        }
        proof {
            lemma_join_push(so_far, label);
            assert(label_ok(label));
            assert(so_far.push(label) == before + labels.push(label));
            assert(labels_ok(so_far.push(label))) by {
                assert forall|i: int| 0 <= i < so_far.push(label).len() implies label_ok(
                    #[trigger] so_far.push(label)[i],
                ) by {
                    if i < so_far.len() {
                        assert(so_far.push(label)[i] == so_far[i]);
                    }
                }
            }
            let next = read_labels(data@, end as int);
            assert(read_labels(data@, pos as int) == prepend_run(
                seq![label],
                1 + label.len() as int,
                next,
            ));
            if next is Some {
                assert(labels + (seq![label] + next->0.labels) == labels.push(label)
                    + next->0.labels);
            }
            labels = labels.push(label);
        }
        pos = end;
    }
    None
}

/// Finds the end of the label that starts at `from`.
fn find_label_end(bytes: &[u8], from: usize) -> (end: usize)
    requires
        from <= bytes@.len(),
    ensures
        end == label_end(bytes@, from as int),
        from <= end <= bytes@.len(),
{
    let mut end = from;
    while end < bytes.len() && bytes[end] != DOT
        invariant
            from <= end <= bytes@.len(),
            forall|k: int| from <= k < end ==> bytes@[k] != DOT,
        decreases bytes@.len() - end,
    {
        end += 1;
    }
    proof {
        let t = bytes@.skip(from as int);
        assert forall|k: int| 0 <= k < end - from implies t[k] != DOT by {
            assert(t[k] == bytes@[from + k]);
        }
        lemma_first_dot_is(t, end - from);
    }
    end
}

impl DnsName {
    /// Whether the name can be written to the wire.
    pub open spec fn valid(&self) -> bool {
        valid_text(self.name@)
    }

    /// A name with the given text. Its `length` is that of its wire form.
    pub fn new(name: String) -> (r: DnsName)
        requires
            encode_name(name@).len() <= usize::MAX,
        ensures
            r.name == name,
            r.offset is None,
            r.length == encode_name(name@).len(),
    {
        let bytes = name.as_str().as_bytes();
        let mut length: usize = 0;
        let mut i: usize = 0;
        assert(bytes@.skip(0) == bytes@);
        while i < bytes.len()
            invariant
                i <= bytes@.len(),
                bytes@ == encode_utf8(name@),
                length + encode_labels(labels_of(bytes@.skip(i as int))).len() == encode_labels(
                    labels_of(bytes@),
                ).len(),
                encode_labels(labels_of(bytes@)).len() < usize::MAX,
            decreases bytes@.len() - i,
        {
            let end = find_label_end(bytes, i);
            proof {
                lemma_labels_step(bytes@, i as int);
                if end > i {
                    lemma_encode_first(
                        bytes@.subrange(i as int, end as int),
                        labels_of(bytes@.skip(label_next(bytes@, i as int))),
                    );
                }
            }
            if end > i {
                length += 1 + (end - i);
            }
            i = if end < bytes.len() {
                end + 1
            } else {
                end
            };
        }
        DnsName { name, offset: None, length: length + 1 }
    }

    /// The length of the wire form of the name, where a buffer can hold it.
    pub fn wire_len(&self) -> (r: Option<usize>)
        ensures
            r is Some <==> fits(encode_name(self.name@)),
            r matches Some(n) ==> n == encode_name(self.name@).len(),
    {
        let bytes = self.name.as_str().as_bytes();
        let mut length: usize = 0;
        let mut i: usize = 0;
        assert(bytes@.skip(0) == bytes@);
        while i < bytes.len()
            invariant
                i <= bytes@.len(),
                bytes@ == encode_utf8(self.name@),
                length + encode_labels(labels_of(bytes@.skip(i as int))).len() == encode_labels(
                    labels_of(bytes@),
                ).len(),
            decreases bytes@.len() - i,
        {
            let end = find_label_end(bytes, i);
            proof {
                lemma_labels_step(bytes@, i as int);
                if end > i {
                    lemma_encode_first(
                        bytes@.subrange(i as int, end as int),
                        labels_of(bytes@.skip(label_next(bytes@, i as int))),
                    );
                }
            }
            if end > i {
                let step = match (end - i).checked_add(1) {
                    Some(step) => step,
                    None => {
                        return None;
                    },
                };
                length = match length.checked_add(step) {
                    Some(length) => length,
                    None => {
                        return None;
                    },
                };
            }
            i = if end < bytes.len() {
                end + 1
            } else {
                end
            };
        }
        if length >= isize::MAX as usize {
            None
        } else {
            Some(length + 1)
        }
    }

    /// Whether the name can be written to the wire.
    pub fn is_valid(&self) -> (ok: bool)
        ensures
            ok == self.valid(),
    {
        if !self.name.is_ascii() {
            return false;
        }
        let bytes = self.name.as_str().as_bytes();
        proof {
            lemma_text_of_ascii(self.name@);
        }
        let mut i: usize = 0;
        assert(bytes@.skip(0) == bytes@);
        while i < bytes.len()
            invariant
                i <= bytes@.len(),
                bytes@ == encode_utf8(self.name@),
                is_ascii_chars(self.name@),
                is_ascii_bytes(bytes@),
                labels_ok(labels_of(bytes@)) == labels_ok(labels_of(bytes@.skip(i as int))),
            decreases bytes@.len() - i,
        {
            let end = find_label_end(bytes, i);
            let ghost rest = labels_of(bytes@.skip(label_next(bytes@, i as int)));
            let ghost head = bytes@.subrange(i as int, end as int);
            proof {
                lemma_labels_step(bytes@, i as int);
            }
            if end - i > MAX_LABEL as usize {
                proof {
                    let all = labels_of(bytes@.skip(i as int));
                    assert(all[0] == head);
                    assert(!label_ok(all[0]));
                }
                return false;
            }
            proof {
                if end > i {
                    assert(label_ok(head));
                    if labels_ok(rest) {
                        assert forall|k: int| 0 <= k < (seq![head] + rest).len() implies label_ok(
                            #[trigger] (seq![head] + rest)[k],
                        ) by {
                            if k > 0 {
                                assert((seq![head] + rest)[k] == rest[k - 1]);
                            }
                        }
                    } else {
                        let k = choose|k: int| 0 <= k < rest.len() && !label_ok(#[trigger] rest[k]);
                        assert((seq![head] + rest)[k + 1] == rest[k]);
                    }
                }
            }
            i = if end < bytes.len() {
                end + 1
            } else {
                end
            };
        }
        true
    }

    /// Writes the name in its wire form.
    pub fn as_buf(&self) -> (buf: BytesMut)
        requires
            self.valid(),
            fits(encode_name(self.name@)),
        ensures
            buf_bytes(buf) == encode_name(self.name@),
    {
        let bytes = self.name.as_str().as_bytes();
        let mut buf = new_buf();
        let mut i: usize = 0;
        assert(bytes@.skip(0) == bytes@);
        while i < bytes.len()
            invariant
                i <= bytes@.len(),
                bytes@ == encode_utf8(self.name@),
                labels_ok(labels_of(bytes@.skip(i as int))),
                buf_bytes(buf) + encode_labels(labels_of(bytes@.skip(i as int))) == encode_labels(
                    labels_of(bytes@),
                ),
                encode_labels(labels_of(bytes@)).len() < isize::MAX,
            decreases bytes@.len() - i,
        {
            let end = find_label_end(bytes, i);
            let ghost rest = labels_of(bytes@.skip(label_next(bytes@, i as int)));
            let ghost head = bytes@.subrange(i as int, end as int);
            let ghost written = buf_bytes(buf);
            proof {
                lemma_labels_step(bytes@, i as int);
                if end > i {
                    lemma_encode_first(head, rest);
                    assert((seq![head] + rest)[0] == head);
                    assert forall|k: int| 0 <= k < rest.len() implies label_ok(
                        #[trigger] rest[k],
                    ) by {
                        assert((seq![head] + rest)[k + 1] == rest[k]);
                    }
                    assert(written + (seq![head.len() as u8] + head + encode_labels(rest))
                        == written.push(head.len() as u8) + head + encode_labels(rest));
                }
            }
            if end > i {
                put_u8(&mut buf, (end - i) as u8);
                put_slice(&mut buf, slice_subrange(bytes, i, end));
            }
            i = if end < bytes.len() {
                end + 1
            } else {
                end
            };
        }
        proof {
            assert(labels_of(bytes@.skip(i as int)) == Seq::<Seq<u8>>::empty());
            assert(buf_bytes(buf) + Seq::<u8>::empty() == buf_bytes(buf));
        }
        put_u8(&mut buf, 0);
        buf
    }

    /// Reads the run of labels at the start of `data`. Where a compression
    /// pointer ends the run, its target is reported in `offset` and is not
    /// followed; `length` counts the bytes of the run, the two of a pointer
    /// among them.
    pub fn read(data: &[u8]) -> (r: Result<DnsName, DnsError>)
        ensures
            match r {
                Ok(name) => read_name(data@, 0) == Some(name@) && name.valid(),
                Err(e) => e == DnsError::MalformedName && read_name(data@, 0) is None,
            },
    {
        let mut text: Vec<u8> = Vec::new();
        match read_run(data, 0, &mut text, Ghost(Seq::empty())) {
            None => Err(DnsError::MalformedName),
            Some((consumed, pointer)) => {
                proof {
                    let run = read_labels(data@, 0)->0;
                    lemma_run_facts(data@, 0);
                    assert(Seq::<Seq<u8>>::empty() + run.labels == run.labels);
                    lemma_join_labels_ok(run.labels);
                    lemma_ascii_text(join_labels(run.labels));
                }
                Ok(DnsName { name: ascii_string(text), offset: pointer, length: consumed })
            },
        }
    }

    /// Reads the name at `start`, following a compression pointer once. The
    /// labels before the pointer and those at its target make one name;
    /// `length` counts only the bytes at `start`, the two of the pointer
    /// among them. A name that cannot be read whole, or whose pointer leads
    /// to another pointer, is malformed.
    pub fn from_buf(data: &[u8], start: usize) -> (r: Result<DnsName, DnsError>)
        ensures
            match r {
                Ok(name) => resolve_name(data@, start as int) == Some(name@) && name.valid(),
                Err(e) => e == DnsError::MalformedName && resolve_name(data@, start as int) is None,
            },
    {
        let mut text: Vec<u8> = Vec::new();
        match read_run(data, start, &mut text, Ghost(Seq::empty())) {
            None => Err(DnsError::MalformedName),
            Some((consumed, pointer)) => {
                let ghost run = read_labels(data@, start as int)->0;
                proof {
                    lemma_run_facts(data@, start as int);
                    assert(Seq::<Seq<u8>>::empty() + run.labels == run.labels);
                    lemma_join_ok(run.labels);
                }
                match pointer {
                    None => {
                        proof {
                            lemma_resolved_name(data@, start as int);
                        }
                        Ok(DnsName { name: ascii_string(text), offset: None, length: consumed })
                    },
                    Some(target) => match read_run(data, target, &mut text, Ghost(run.labels)) {
                        Some((_, None)) => {
                            proof {
                                let tail = read_labels(data@, target as int)->0;
                                lemma_run_facts(data@, target as int);
                                lemma_join_ok(tail.labels);
                                lemma_join_ok(run.labels);
                                lemma_join_concat(run.labels, tail.labels);
                                assert(is_ascii_bytes(text@));
                                lemma_resolved_name(data@, start as int);
                            }
                            Ok(DnsName { name: ascii_string(text), offset: None, length: consumed })
                        },
                        _ => Err(DnsError::MalformedName),
                    },
                }
            },
        }
    }
}

} // verus!
