//! The byte-level model of a domain name: its text, its labels, and the
//! label sequence as it stands on the wire.

use vstd::prelude::*;

verus! {

/// The byte that separates the labels of a name in its text.
pub const DOT: u8 = 0x2E;

/// The greatest length of a label.
pub const MAX_LABEL: u8 = 63;

/// The least length byte that marks a compression pointer: a byte whose two
/// high bits are set.
pub const POINTER_TAG: u8 = 0xC0;

/// The number of bytes of `s` before its first dot, or all of them.
pub open spec fn first_dot(s: Seq<u8>) -> nat
    decreases s.len(),
{
    if s.len() == 0 || s[0] == DOT {
        0
    } else {
        1 + first_dot(s.drop_first())
    }
}

/// The labels of a name's text: the non-empty runs of bytes between its dots.
pub open spec fn labels_of(s: Seq<u8>) -> Seq<Seq<u8>>
    decreases s.len(),
{
    if s.len() == 0 {
        Seq::empty()
    } else {
        let n = first_dot(s) as int;
        let rest = if n < s.len() {
            labels_of(s.skip(n + 1))
        } else {
            Seq::empty()
        };
        if n == 0 {
            rest
        } else {
            seq![s.take(n)] + rest
        }
    }
}

/// The text of a label sequence: the labels with a dot between neighbours.
pub open spec fn join_labels(labels: Seq<Seq<u8>>) -> Seq<u8>
    decreases labels.len(),
{
    if labels.len() == 0 {
        Seq::empty()
    } else if labels.len() == 1 {
        labels[0]
    } else {
        join_labels(labels.drop_last()) + seq![DOT] + labels.last()
    }
}

/// Whether every byte is an ASCII code.
pub open spec fn is_ascii_bytes(s: Seq<u8>) -> bool {
    forall|i: int| 0 <= i < s.len() ==> s[i] < 128
}

/// Whether a label may stand on the wire: 1 to 63 bytes of ASCII.
pub open spec fn label_ok(label: Seq<u8>) -> bool {
    1 <= label.len() <= MAX_LABEL && is_ascii_bytes(label)
}

/// Whether every label of the sequence may stand on the wire.
pub open spec fn labels_ok(labels: Seq<Seq<u8>>) -> bool {
    forall|i: int| 0 <= i < labels.len() ==> label_ok(#[trigger] labels[i])
}

/// The wire form of a label sequence without its terminator: each label
/// after a byte that gives its length.
pub open spec fn encode_labels(labels: Seq<Seq<u8>>) -> Seq<u8>
    decreases labels.len(),
{
    if labels.len() == 0 {
        Seq::empty()
    } else {
        seq![labels[0].len() as u8] + labels[0] + encode_labels(labels.drop_first())
    }
}

/// One run of labels as read from a buffer: the labels, the number of bytes
/// the run takes up, and the target of the pointer that ends it, if one does.
pub struct LabelRun {
    pub labels: Seq<Seq<u8>>,
    pub consumed: int,
    pub pointer: Option<int>,
}

/// The run of labels that starts at `pos`. A zero byte ends the run; so does
/// a pointer, whose two bytes are counted but whose target is not followed.
/// There is no run where a byte is missing, where a length byte has just one
/// of its two high bits set, or where a label holds a byte that is not ASCII.
pub open spec fn read_labels(buf: Seq<u8>, pos: int) -> Option<LabelRun>
    decreases buf.len() - pos,
{
    if pos < 0 || pos >= buf.len() {
        None
    } else if buf[pos] >= POINTER_TAG {
        if pos + 1 >= buf.len() {
            None
        } else {
            Some(
                LabelRun {
                    labels: Seq::empty(),
                    consumed: 2,
                    pointer: Some((buf[pos] - POINTER_TAG) * 256 + buf[pos + 1]),
                },
            )
        }
    } else if buf[pos] == 0 {
        Some(LabelRun { labels: Seq::empty(), consumed: 1, pointer: None })
    } else if buf[pos] > MAX_LABEL || pos + 1 + buf[pos] > buf.len() {
        None
    } else {
        let end = pos + 1 + buf[pos];
        let label = buf.subrange(pos + 1, end);
        if !is_ascii_bytes(label) {
            None
        } else {
            match read_labels(buf, end) {
                None => None,
                Some(rest) => Some(
                    LabelRun {
                        labels: seq![label] + rest.labels,
                        consumed: 1 + label.len() + rest.consumed,
                        pointer: rest.pointer,
                    },
                ),
            }
        }
    }
}

/// The labels of the name that starts at `start`, with the bytes it takes up
/// there. A pointer at the end of the first run is followed once; a second
/// pointer, at the end of the run it leads to, is not accepted.
pub open spec fn resolve_labels(buf: Seq<u8>, start: int) -> Option<(Seq<Seq<u8>>, int)> {
    match read_labels(buf, start) {
        None => None,
        Some(run) => match run.pointer {
            None => Some((run.labels, run.consumed)),
            Some(target) => match read_labels(buf, target) {
                None => None,
                Some(tail) => if tail.pointer is Some {
                    None
                } else {
                    Some((run.labels + tail.labels, run.consumed))
                },
            },
        },
    }
}

/// A run that follows `labels`, which took up `consumed` bytes before it.
pub open spec fn prepend_run(labels: Seq<Seq<u8>>, consumed: int, rest: Option<LabelRun>) -> Option<
    LabelRun,
> {
    match rest {
        None => None,
        Some(r) => Some(
            LabelRun {
                labels: labels + r.labels,
                consumed: consumed + r.consumed,
                pointer: r.pointer,
            },
        ),
    }
}

/// Joining one more label: the first stands alone, each later one follows a
/// dot.
pub proof fn lemma_join_push(labels: Seq<Seq<u8>>, label: Seq<u8>)
    ensures
        join_labels(labels.push(label)) == if labels.len() == 0 {
            label
        } else {
            join_labels(labels) + seq![DOT] + label
        },
{
    assert(labels.push(label).drop_last() == labels);
}

/// The text of labels that may stand on the wire is ASCII, and is empty only
/// when there is no label.
pub proof fn lemma_join_ok(labels: Seq<Seq<u8>>)
    requires
        labels_ok(labels),
    ensures
        is_ascii_bytes(join_labels(labels)),
        join_labels(labels).len() == 0 <==> labels.len() == 0,
    decreases labels.len(),
{
    if labels.len() > 1 {
        assert(labels_ok(labels.drop_last()));
        lemma_join_ok(labels.drop_last());
        assert(label_ok(labels.last()));
    } else if labels.len() == 1 {
        assert(label_ok(labels[0]));
    }
}

/// Joining two sequences of labels joins their texts, with a dot between them
/// where neither is empty.
pub proof fn lemma_join_concat(a: Seq<Seq<u8>>, b: Seq<Seq<u8>>)
    ensures
        join_labels(a + b) == if a.len() == 0 {
            join_labels(b)
        } else if b.len() == 0 {
            join_labels(a)
        } else {
            join_labels(a) + seq![DOT] + join_labels(b)
        },
    decreases b.len(),
{
    if a.len() == 0 {
        assert(a + b == b);
    } else if b.len() == 0 {
        assert(a + b == a);
    } else {
        let init = b.drop_last();
        assert((a + b).drop_last() == a + init);
        assert((a + b).last() == b.last());
        lemma_join_concat(a, init);
        if init.len() == 0 {
            assert(a + init == a);
        } else {
            assert(join_labels(a + b) == join_labels(a) + seq![DOT] + join_labels(b));
        }
    }
}

/// What holds of every run: its labels may stand on the wire, it lies within
/// the buffer, its pointer is a 14-bit number, and its text is shorter than
/// the bytes it takes up.
pub proof fn lemma_run_facts(buf: Seq<u8>, pos: int)
    requires
        read_labels(buf, pos) is Some,
    ensures
        ({
            let run = read_labels(buf, pos)->0;
            &&& labels_ok(run.labels)
            &&& 1 <= run.consumed
            &&& 0 <= pos
            &&& pos + run.consumed <= buf.len()
            &&& run.pointer matches Some(target) ==> 0 <= target < 0x4000 && run.consumed >= 2
            &&& join_labels(run.labels).len() < run.consumed
        }),
    decreases buf.len() - pos,
{
    let run = read_labels(buf, pos)->0;
    if buf[pos] >= POINTER_TAG {
    } else if buf[pos] == 0 {
    } else {
        let end = pos + 1 + buf[pos];
        let label = buf.subrange(pos + 1, end);
        lemma_run_facts(buf, end);
        let rest = read_labels(buf, end)->0;
        assert(run.labels == seq![label] + rest.labels);
        assert(label_ok(label));
        assert(labels_ok(run.labels)) by {
            assert forall|i: int| 0 <= i < run.labels.len() implies label_ok(
                #[trigger] run.labels[i],
            ) by {
                if i > 0 {
                    assert(run.labels[i] == rest.labels[i - 1]);
                }
            }
        }
        lemma_join_concat(seq![label], rest.labels);
        assert(join_labels(seq![label]) == label);
    }
}

/// Where the label that starts at `from` ends: at the next dot or at the end
/// of the text.
pub open spec fn label_end(s: Seq<u8>, from: int) -> int {
    from + first_dot(s.skip(from))
}

/// Where the text goes on after the label that starts at `from`: behind the
/// dot that ends the label, or at the end of the text.
pub open spec fn label_next(s: Seq<u8>, from: int) -> int {
    if label_end(s, from) < s.len() {
        label_end(s, from) + 1
    } else {
        label_end(s, from)
    }
}

/// The first dot lies within the text, no dot lies before it, and a dot lies
/// at it unless the text ends there.
pub proof fn lemma_first_dot(s: Seq<u8>)
    ensures
        first_dot(s) <= s.len(),
        forall|k: int| 0 <= k < first_dot(s) ==> s[k] != DOT,
        first_dot(s) < s.len() ==> s[first_dot(s) as int] == DOT,
    decreases s.len(),
{
    if s.len() == 0 || s[0] == DOT {
    } else {
        let t = s.drop_first();
        lemma_first_dot(t);
        assert forall|k: int| 0 <= k < first_dot(s) implies s[k] != DOT by {
            if k > 0 {
                assert(s[k] == t[k - 1]);
            }
        }
        if first_dot(s) < s.len() {
            assert(s[first_dot(s) as int] == t[first_dot(t) as int]);
        }
    }
}

/// A position with no dot before it, and a dot or the end of the text at it,
/// is the first dot.
pub proof fn lemma_first_dot_is(s: Seq<u8>, n: int)
    requires
        0 <= n <= s.len(),
        forall|k: int| 0 <= k < n ==> s[k] != DOT,
        n < s.len() ==> s[n] == DOT,
    ensures
        first_dot(s) == n,
    decreases s.len(),
{
    if n > 0 {
        let t = s.drop_first();
        assert forall|k: int| 0 <= k < n - 1 implies t[k] != DOT by {
            assert(t[k] == s[k + 1]);
        }
        lemma_first_dot_is(t, n - 1);
        assert(s[0] != DOT);
    }
}

/// The labels from `from` on are the label that starts there, if it is not
/// empty, and the labels of what follows it.
pub proof fn lemma_labels_step(s: Seq<u8>, from: int)
    requires
        0 <= from < s.len(),
    ensures
        from <= label_end(s, from) <= s.len(),
        from < label_next(s, from) <= s.len(),
        labels_of(s.skip(from)) == if label_end(s, from) > from {
            seq![s.subrange(from, label_end(s, from))] + labels_of(s.skip(label_next(s, from)))
        } else {
            labels_of(s.skip(label_next(s, from)))
        },
{
    let t = s.skip(from);
    lemma_first_dot(t);
    let n = first_dot(t) as int;
    assert(t.take(n) == s.subrange(from, from + n));
    if n < t.len() {
        assert(t.skip(n + 1) == s.skip(from + n + 1));
    } else {
        assert(s.skip(from + n).len() == 0);
    }
}

/// The wire form of one label before others.
pub proof fn lemma_encode_first(label: Seq<u8>, rest: Seq<Seq<u8>>)
    ensures
        encode_labels(seq![label] + rest) == seq![label.len() as u8] + label + encode_labels(rest),
{
    assert((seq![label] + rest).drop_first() == rest);
}

/// The labels of a text take up at most one byte more than the text, and
/// each is a non-empty part of it.
pub proof fn lemma_labels_bound(s: Seq<u8>)
    ensures
        encode_labels(labels_of(s)).len() <= s.len() + 1,
        s.len() == 0 ==> encode_labels(labels_of(s)).len() == 0,
        forall|i: int|
            0 <= i < labels_of(s).len() ==> 1 <= (#[trigger] labels_of(s)[i]).len() <= s.len(),
        is_ascii_bytes(s) ==> forall|i: int|
            0 <= i < labels_of(s).len() ==> is_ascii_bytes(#[trigger] labels_of(s)[i]),
    decreases s.len(),
{
    if s.len() > 0 {
        lemma_labels_step(s, 0);
        assert(s.skip(0) == s);
        let rest = s.skip(label_next(s, 0));
        lemma_labels_bound(rest);
        let end = label_end(s, 0);
        if end > 0 {
            let head = s.subrange(0, end);
            lemma_encode_first(head, labels_of(rest));
            assert forall|i: int| 0 <= i < labels_of(s).len() implies 1 <= (
            #[trigger] labels_of(s)[i]).len() <= s.len() by {
                if i > 0 {
                    assert(labels_of(s)[i] == labels_of(rest)[i - 1]);
                }
            }
        }
        if is_ascii_bytes(s) {
            assert(is_ascii_bytes(rest));
            assert forall|i: int| 0 <= i < labels_of(s).len() implies is_ascii_bytes(
                #[trigger] labels_of(s)[i],
            ) by {
                if end > 0 && i > 0 {
                    assert(labels_of(s)[i] == labels_of(rest)[i - 1]);
                } else if end > 0 {
                    assert(labels_of(s)[i] == s.subrange(0, end));
                }
            }
        }
    }
}

/// Two sequences of labels that may stand on the wire make one that may.
pub proof fn lemma_labels_ok_concat(a: Seq<Seq<u8>>, b: Seq<Seq<u8>>)
    requires
        labels_ok(a),
        labels_ok(b),
    ensures
        labels_ok(a + b),
{
    assert forall|i: int| 0 <= i < (a + b).len() implies label_ok(#[trigger] (a + b)[i]) by {
        if i < a.len() {
            assert((a + b)[i] == a[i]);
        } else {
            assert((a + b)[i] == b[i - a.len()]);
        }
    }
}

/// The labels of two texts with a dot between them are the labels of the
/// first and then those of the second.
pub proof fn lemma_labels_concat(a: Seq<u8>, b: Seq<u8>)
    ensures
        labels_of(a + seq![DOT] + b) == labels_of(a) + labels_of(b),
    decreases a.len(),
{
    let s = a + seq![DOT] + b;
    if a.len() == 0 {
        assert(first_dot(s) == 0);
        assert(s.skip(1) == b);
    } else {
        lemma_first_dot(a);
        let n = first_dot(a) as int;
        assert forall|k: int| 0 <= k < n implies s[k] != DOT by {
            assert(s[k] == a[k]);
        }
        assert(s[n] == DOT) by {
            if n < a.len() {
                assert(s[n] == a[n]);
            }
        }
        lemma_first_dot_is(s, n);
        assert(s.take(n) == a.take(n));
        if n < a.len() {
            let tail = a.skip(n + 1);
            assert(s.skip(n + 1) == tail + seq![DOT] + b);
            lemma_labels_concat(tail, b);
            if n > 0 {
                assert(seq![a.take(n)] + (labels_of(tail) + labels_of(b)) == seq![a.take(n)]
                    + labels_of(tail) + labels_of(b));
            }
        } else {
            assert(s.skip(n + 1) == b);
            assert(seq![a.take(n)] + Seq::<Seq<u8>>::empty() == seq![a.take(n)]);
        }
    }
}

/// The text of labels that may stand on the wire has labels that may stand
/// there too.
pub proof fn lemma_join_labels_ok(labels: Seq<Seq<u8>>)
    requires
        labels_ok(labels),
    ensures
        labels_ok(labels_of(join_labels(labels))),
        is_ascii_bytes(join_labels(labels)),
    decreases labels.len(),
{
    lemma_join_ok(labels);
    if labels.len() >= 1 {
        let last = labels.last();
        assert(label_ok(last));
        lemma_labels_bound(last);
        assert(labels_ok(labels_of(last)));
        if labels.len() > 1 {
            let init = labels.drop_last();
            assert(labels_ok(init));
            lemma_join_labels_ok(init);
            lemma_labels_concat(join_labels(init), last);
            lemma_labels_ok_concat(labels_of(join_labels(init)), labels_of(last));
        } else {
            assert(join_labels(labels) == last);
        }
    }
}

/// Whether a text spells its labels and nothing else: it neither starts nor
/// ends with a dot, and no two dots are neighbours.
pub open spec fn is_canonical(s: Seq<u8>) -> bool {
    s.len() > 0 ==> {
        &&& s[0] != DOT
        &&& s.last() != DOT
        &&& forall|i: int| 0 <= i < s.len() - 1 ==> !(s[i] == DOT && #[trigger] s[i + 1] == DOT)
    }
}

/// A text that spells its labels and nothing else is the text of its labels.
pub proof fn lemma_join_labels_of(s: Seq<u8>)
    requires
        is_canonical(s),
    ensures
        join_labels(labels_of(s)) == s,
        s.len() > 0 ==> labels_of(s).len() > 0,
    decreases s.len(),
{
    if s.len() > 0 {
        lemma_labels_step(s, 0);
        lemma_first_dot(s);
        assert(s.skip(0) == s);
        let n = first_dot(s) as int;
        let head = s.subrange(0, n);
        if n < s.len() {
            let rest = s.skip(n + 1);
            assert(s[n - 1 + 1] == DOT);
            assert(n < s.len() - 1);
            assert(rest[0] == s[n + 1]);
            assert(is_canonical(rest)) by {
                assert(rest.last() == s.last());
                assert forall|i: int| 0 <= i < rest.len() - 1 implies !(rest[i] == DOT
                    && #[trigger] rest[i + 1] == DOT) by {
                    assert(rest[i] == s[n + 1 + i]);
                    assert(rest[i + 1] == s[n + 1 + i + 1]);
                }
            }
            lemma_join_labels_of(rest);
            lemma_join_concat(seq![head], labels_of(rest));
            assert(join_labels(seq![head]) == head);
            assert(head + seq![DOT] + rest == s);
        } else {
            assert(head == s);
            assert(seq![head] + Seq::<Seq<u8>>::empty() == seq![head]);
        }
    }
}

/// Reading labels back from their wire form gives the labels, the length of
/// that form, and no pointer, whatever stands before and behind it in the
/// buffer.
pub proof fn lemma_read_encoded(before: Seq<u8>, labels: Seq<Seq<u8>>, behind: Seq<u8>)
    requires
        labels_ok(labels),
    ensures
        read_labels(
            before + (encode_labels(labels) + seq![0u8]) + behind,
            before.len() as int,
        ) == Some(
            LabelRun { labels, consumed: encode_labels(labels).len() as int + 1, pointer: None },
        ),
    decreases labels.len(),
{
    let buf = before + (encode_labels(labels) + seq![0u8]) + behind;
    let pos = before.len() as int;
    if labels.len() == 0 {
        assert(buf[pos] == 0);
        assert(read_labels(buf, pos)->0.labels == labels);
    } else {
        let label = labels[0];
        let rest = labels.drop_first();
        assert(label_ok(label));
        assert(labels_ok(rest));
        assert(encode_labels(labels) == seq![label.len() as u8] + label + encode_labels(rest));
        assert(buf[pos] == label.len() as u8);
        let end = pos + 1 + label.len();
        assert(buf.subrange(pos + 1, end) == label);
        let moved = before + seq![label.len() as u8] + label;
        assert(buf == moved + (encode_labels(rest) + seq![0u8]) + behind);
        lemma_read_encoded(moved, rest, behind);
        assert(seq![label] + rest == labels);
    }
}

} // verus!
