//! The shape of a response packet, part by part.
//!
//! A frame holds the fields of one part of a packet as they stand on the wire:
//! the digits of its length and of its count, its payload, the frames inside
//! it. [`ResponseFrame::bytes`] puts a frame on the wire, and
//! [`ResponseFrame::well_framed`] says when the fields fit each other: every
//! length and every count is a decimal number, and it is the number of what
//! follows. The packets that the grammar of the protocol admits are the bytes
//! of the well-framed frames.
//!
//! Frames exist in specifications and proofs only.

use crate::decimal::{all_digits, decimal_digits, decimal_value, lemma_decimal_digits, LF};
use crate::deserializer::{
    element_value, is_element_tag, payload_text, DataTypeView, DecodeError, AMPERSAND, ASTERISK,
    HASH,
};
use vstd::prelude::*;

verus! {

/// Whether `digits` is a decimal field that denotes `n`: one digit at least,
/// digits only, with the value `n`. Leading zeros are admitted.
pub open spec fn decimal_field(digits: Seq<u8>, n: nat) -> bool {
    digits.len() >= 1 && all_digits(digits) && decimal_value(digits) == n
}

/// The parts `parts`, one behind the other.
pub open spec fn joined(parts: Seq<Seq<u8>>) -> Seq<u8>
    decreases parts.len(),
{
    if parts.len() == 0 {
        Seq::empty()
    } else {
        joined(parts.drop_last()) + parts.last()
    }
}

/// Where the part with the index `index` starts in [`joined`]: the length of
/// the parts in front of it.
pub open spec fn offset(parts: Seq<Seq<u8>>, index: int) -> int {
    joined(parts.take(index)).len() as int
}

/// Whether the buffer holds the bytes `part` from the position `pos` on.
pub open spec fn holds(buf: Seq<u8>, pos: int, part: Seq<u8>) -> bool {
    0 <= pos && pos + part.len() <= buf.len() && buf.subrange(pos, pos + part.len()) == part
}

/// The envelope with the length digits `length` and the count digits `count`
/// behind the marker `marker`.
pub open spec fn header_bytes(length: Seq<u8>, marker: u8, count: Seq<u8>) -> Seq<u8> {
    seq![HASH] + length + seq![LF] + seq![marker] + count + seq![LF]
}

/// An element as it stands on the wire.
pub struct ElementFrame {
    /// The byte that announces the type
    pub tag: u8,
    /// The digits of the length of the payload
    pub length: Seq<u8>,
    /// The payload
    pub payload: Seq<u8>,
}

impl ElementFrame {
    /// The bytes of the element: tag, length, line feed, payload, line feed.
    pub open spec fn bytes(self) -> Seq<u8> {
        seq![self.tag] + self.length + seq![LF] + self.payload + seq![LF]
    }

    /// Whether the tag is an element tag and the length is that of the
    /// payload.
    pub open spec fn well_framed(self) -> bool {
        is_element_tag(self.tag) && decimal_field(self.length, self.payload.len())
    }

    /// What the payload amounts to under the tag.
    pub open spec fn value(self) -> Result<DataTypeView, DecodeError> {
        element_value(self.tag, self.payload, payload_text(self.payload))
    }

    /// Whether the payload holds what the tag announces.
    pub open spec fn readable(self) -> bool {
        self.value() is Ok
    }

    /// The element with the tag `tag` and the payload `payload`, its length
    /// written without leading zeros.
    pub open spec fn encode(tag: u8, payload: Seq<u8>) -> ElementFrame {
        ElementFrame { tag, length: decimal_digits(payload.len()), payload }
    }

    /// This element with `length` as the digits of its length.
    pub open spec fn with_length(self, length: Seq<u8>) -> ElementFrame {
        ElementFrame { tag: self.tag, length, payload: self.payload }
    }

    /// This element with another payload and the digits of its length.
    pub open spec fn with_payload(self, length: Seq<u8>, payload: Seq<u8>) -> ElementFrame {
        ElementFrame { tag: self.tag, length, payload }
    }
}

/// A datagroup as it stands on the wire.
pub struct GroupFrame {
    /// The digits of the length of the line with the count
    pub length: Seq<u8>,
    /// The digits of the number of elements
    pub count: Seq<u8>,
    /// The elements
    pub elements: Seq<ElementFrame>,
}

impl GroupFrame {
    /// The bytes of the elements, element by element.
    pub open spec fn parts(self) -> Seq<Seq<u8>> {
        Seq::new(self.elements.len(), |i: int| self.elements[i].bytes())
    }

    /// The bytes of the datagroup: its envelope, then its elements.
    pub open spec fn bytes(self) -> Seq<u8> {
        header_bytes(self.length, AMPERSAND, self.count) + joined(self.parts())
    }

    /// Whether the envelope is sound: the length is that of the line, which
    /// is the marker and the count, and the count is the number of elements.
    pub open spec fn well_headed(self) -> bool {
        decimal_field(self.length, 1 + self.count.len()) && decimal_field(
            self.count,
            self.elements.len(),
        )
    }

    /// Whether the envelope is sound and every element is well framed.
    pub open spec fn well_framed(self) -> bool {
        self.well_headed() && forall|i: int|
            0 <= i < self.elements.len() ==> (#[trigger] self.elements[i]).well_framed()
    }

    /// Whether every payload holds what its tag announces.
    pub open spec fn readable(self) -> bool {
        forall|i: int| 0 <= i < self.elements.len() ==> (#[trigger] self.elements[i]).readable()
    }

    /// The values of the elements, in the order of the wire.
    pub open spec fn values(self) -> Seq<DataTypeView> {
        Seq::new(self.elements.len(), |i: int| self.elements[i].value()->Ok_0)
    }

    /// The datagroup of the elements `elements`, its count and its length
    /// written without leading zeros.
    pub open spec fn encode(elements: Seq<ElementFrame>) -> GroupFrame {
        GroupFrame {
            length: decimal_digits(1 + decimal_digits(elements.len()).len()),
            count: decimal_digits(elements.len()),
            elements,
        }
    }

    /// This datagroup with `length` as the digits of the length of its line.
    pub open spec fn with_length(self, length: Seq<u8>) -> GroupFrame {
        GroupFrame { length, count: self.count, elements: self.elements }
    }

    /// This datagroup with `count` as the digits of the number of its
    /// elements.
    pub open spec fn with_count(self, count: Seq<u8>) -> GroupFrame {
        GroupFrame { length: self.length, count, elements: self.elements }
    }

    /// This datagroup with `element` in place of the element with the index
    /// `index`.
    pub open spec fn with_element(self, index: int, element: ElementFrame) -> GroupFrame {
        GroupFrame {
            length: self.length,
            count: self.count,
            elements: self.elements.update(index, element),
        }
    }
}

/// A response packet as it stands on the wire.
pub struct ResponseFrame {
    /// The digits of the length of the line with the count
    pub length: Seq<u8>,
    /// The digits of the number of datagroups
    pub count: Seq<u8>,
    /// The datagroups
    pub groups: Seq<GroupFrame>,
}

impl ResponseFrame {
    /// The bytes of the datagroups, datagroup by datagroup.
    pub open spec fn parts(self) -> Seq<Seq<u8>> {
        Seq::new(self.groups.len(), |i: int| self.groups[i].bytes())
    }

    /// The bytes of the packet: the metaframe, then the datagroups.
    pub open spec fn bytes(self) -> Seq<u8> {
        header_bytes(self.length, ASTERISK, self.count) + joined(self.parts())
    }

    /// Whether the metaframe is sound: the length is that of the line, which
    /// is the marker and the count, and the count is the number of
    /// datagroups.
    pub open spec fn well_headed(self) -> bool {
        decimal_field(self.length, 1 + self.count.len()) && decimal_field(
            self.count,
            self.groups.len(),
        )
    }

    /// Whether the metaframe is sound and every datagroup is well framed.
    pub open spec fn well_framed(self) -> bool {
        self.well_headed() && forall|i: int|
            0 <= i < self.groups.len() ==> (#[trigger] self.groups[i]).well_framed()
    }

    /// Whether every payload holds what its tag announces.
    pub open spec fn readable(self) -> bool {
        forall|i: int| 0 <= i < self.groups.len() ==> (#[trigger] self.groups[i]).readable()
    }

    /// The values of the datagroups, in the order of the wire.
    pub open spec fn values(self) -> Seq<Seq<DataTypeView>> {
        Seq::new(self.groups.len(), |i: int| self.groups[i].values())
    }

    /// The packet of the datagroups `groups`, its count and its length
    /// written without leading zeros.
    pub open spec fn encode(groups: Seq<GroupFrame>) -> ResponseFrame {
        ResponseFrame {
            length: decimal_digits(1 + decimal_digits(groups.len()).len()),
            count: decimal_digits(groups.len()),
            groups,
        }
    }

    /// This packet with `length` as the digits of the length of its line.
    pub open spec fn with_length(self, length: Seq<u8>) -> ResponseFrame {
        ResponseFrame { length, count: self.count, groups: self.groups }
    }

    /// This packet with `count` as the digits of the number of its
    /// datagroups.
    pub open spec fn with_count(self, count: Seq<u8>) -> ResponseFrame {
        ResponseFrame { length: self.length, count, groups: self.groups }
    }

    /// This packet with `group` in place of the datagroup with the index
    /// `index`.
    pub open spec fn with_group(self, index: int, group: GroupFrame) -> ResponseFrame {
        ResponseFrame {
            length: self.length,
            count: self.count,
            groups: self.groups.update(index, group),
        }
    }
}

/// Where the element with the index `index` stands in the bytes of a
/// datagroup that starts at `pos`.
pub open spec fn element_position(pos: int, frame: GroupFrame, index: int) -> int {
    pos + header_bytes(frame.length, AMPERSAND, frame.count).len() + offset(frame.parts(), index)
}

/// Where the datagroup with the index `index` stands in the bytes of the
/// packet.
pub open spec fn group_position(frame: ResponseFrame, index: int) -> int {
    header_bytes(frame.length, ASTERISK, frame.count).len() + offset(frame.parts(), index)
}

/// The datagroup whose elements have the tags and payloads `contents`, every
/// length and the count written without leading zeros.
pub open spec fn encode_group(contents: Seq<(u8, Seq<u8>)>) -> GroupFrame {
    GroupFrame::encode(
        Seq::new(contents.len(), |i: int| ElementFrame::encode(contents[i].0, contents[i].1)),
    )
}

/// The packet whose datagroups have the elements `contents`, every length and
/// every count written without leading zeros.
pub open spec fn encode_response(contents: Seq<Seq<(u8, Seq<u8>)>>) -> ResponseFrame {
    ResponseFrame::encode(Seq::new(contents.len(), |g: int| encode_group(contents[g])))
}

/// An element that was encoded is well framed, whatever its payload.
pub proof fn lemma_encoded_element(tag: u8, payload: Seq<u8>)
    requires
        is_element_tag(tag),
    ensures
        ElementFrame::encode(tag, payload).well_framed(),
{
    lemma_decimal_digits(payload.len());
}

/// A datagroup that was encoded from well-framed elements is well framed.
pub proof fn lemma_encoded_group(elements: Seq<ElementFrame>)
    requires
        forall|i: int| 0 <= i < elements.len() ==> (#[trigger] elements[i]).well_framed(),
    ensures
        GroupFrame::encode(elements).well_framed(),
{
    lemma_decimal_digits(elements.len());
    lemma_decimal_digits(1 + decimal_digits(elements.len()).len());
}

/// A packet that was encoded from well-framed datagroups is well framed.
pub proof fn lemma_encoded_response(groups: Seq<GroupFrame>)
    requires
        forall|i: int| 0 <= i < groups.len() ==> (#[trigger] groups[i]).well_framed(),
    ensures
        ResponseFrame::encode(groups).well_framed(),
{
    lemma_decimal_digits(groups.len());
    lemma_decimal_digits(1 + decimal_digits(groups.len()).len());
}

/// A buffer that holds `first + second` holds `first`, and `second` behind
/// it.
pub proof fn lemma_holds_both(buf: Seq<u8>, pos: int, first: Seq<u8>, second: Seq<u8>)
    requires
        holds(buf, pos, first + second),
    ensures
        holds(buf, pos, first),
        holds(buf, pos + first.len(), second),
{
    let whole = buf.subrange(pos, pos + (first + second).len());
    assert forall|i: int| 0 <= i < first.len() implies buf[pos + i] == first[i] by {
        assert(whole[i] == (first + second)[i]);
    }
    assert forall|i: int| 0 <= i < second.len() implies buf[pos + first.len() + i]
        == second[i] by {
        assert(whole[first.len() + i] == (first + second)[first.len() + i]);
    }
    assert(buf.subrange(pos, pos + first.len()) =~= first);
    assert(buf.subrange(pos + first.len(), pos + first.len() + second.len()) =~= second);
}

/// A buffer that holds `part` holds its bytes, one by one.
pub proof fn lemma_holds_bytes(buf: Seq<u8>, pos: int, part: Seq<u8>)
    requires
        holds(buf, pos, part),
    ensures
        forall|i: int| 0 <= i < part.len() ==> buf[pos + i] == #[trigger] part[i],
{
    let whole = buf.subrange(pos, pos + part.len());
    assert forall|i: int| 0 <= i < part.len() implies buf[pos + i] == #[trigger] part[i] by {
        assert(whole[i] == part[i]);
    }
}

/// A buffer that holds the parts one behind the other holds each of them at
/// its offset.
pub proof fn lemma_holds_part(buf: Seq<u8>, pos: int, parts: Seq<Seq<u8>>, index: int)
    requires
        holds(buf, pos, joined(parts)),
        0 <= index < parts.len(),
    ensures
        holds(buf, pos + offset(parts, index), parts[index]),
        offset(parts, index + 1) == offset(parts, index) + parts[index].len(),
        pos + offset(parts, index + 1) <= buf.len(),
    decreases parts.len(),
{
    lemma_holds_both(buf, pos, joined(parts.drop_last()), parts.last());
    if index == parts.len() - 1 {
        assert(parts.take(index) =~= parts.drop_last());
        assert(parts.take(index + 1) =~= parts);
    } else {
        lemma_holds_part(buf, pos, parts.drop_last(), index);
        assert(parts.drop_last().take(index) =~= parts.take(index));
        assert(parts.drop_last().take(index + 1) =~= parts.take(index + 1));
    }
}

} // verus!
