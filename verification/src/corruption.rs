//! What the decoder makes of packets that were damaged on the way.
//!
//! Two kinds of damage are told apart. A byte that is no digit in place of a
//! digit of a length or of a count breaks the framing, and the packet is
//! invalid. A payload that is not the text of a number where the tag
//! announces a number leaves the framing intact, and the packet is a parse
//! error; a string takes any payload.
//!
//! The statements on digits speak of the bytes of a packet with one byte
//! replaced. Each names the position of the digit in the packet, says that the
//! digit stands there, and says what the packet decodes to with another byte
//! in its place.
//!
//! One replacement is left out: a line feed in place of a digit of the
//! length of an element. It ends the length early, and what was a digit and a
//! payload may then read as a shorter payload and further elements, so that
//! the packet need not be invalid.

use crate::decimal::{all_digits, is_digit, parse_u64, LF, PLUS};
use crate::deserializer::{
    classify, decode, element, failure, payload_text, ClientResultView, DataTypeView, DecodeError,
    AMPERSAND, ASTERISK, BANG, COLON,
};
use crate::frames::{
    decimal_field, element_position, group_position, header_bytes, holds, joined,
    lemma_holds_both, offset, ElementFrame, GroupFrame, ResponseFrame,
};
use crate::wellformed::{
    elements_sound, groups_sound, lemma_decode_fail, lemma_element_broken, lemma_element_held,
    lemma_element_read, lemma_frame_header_broken, lemma_frame_header_ended_early,
    lemma_frame_header_read, lemma_group_fail, lemma_group_held, well_formed_packet_decodes,
};
use vstd::prelude::*;

verus! {

/// Whether `byte` can take the place of the digit with the index `at` of the
/// decimal field `digits` and damage it: `byte` is no digit.
pub open spec fn damaged(digits: Seq<u8>, at: int, byte: u8) -> bool {
    0 <= at < digits.len() && all_digits(digits) && !is_digit(byte)
}

/// Where the digit with the index `at` of a length stands, in an envelope or
/// an element that starts at `pos`.
pub open spec fn length_site(pos: int, at: int) -> int {
    pos + 1 + at
}

/// Where the digit with the index `at` of the count of an envelope stands
/// that starts at `pos` and has the length digits `length`.
pub open spec fn count_site(pos: int, length: Seq<u8>, at: int) -> int {
    pos + 3 + length.len() + at
}

/// Replacing a byte of one part replaces that byte of the joined parts.
pub proof fn lemma_joined_update(parts: Seq<Seq<u8>>, index: int, at: int, byte: u8)
    requires
        0 <= index < parts.len(),
        0 <= at < parts[index].len(),
    ensures
        0 <= offset(parts, index) + at < joined(parts).len(),
        joined(parts)[offset(parts, index) + at] == parts[index][at],
        joined(parts.update(index, parts[index].update(at, byte))) == joined(parts).update(
            offset(parts, index) + at,
            byte,
        ),
    decreases parts.len(),
{
    let changed = parts.update(index, parts[index].update(at, byte));
    let front = parts.drop_last();
    if index == parts.len() - 1 {
        assert(changed.drop_last() =~= front);
        assert(parts.take(index) =~= front);
        assert(joined(changed) =~= joined(parts).update(offset(parts, index) + at, byte));
    } else {
        lemma_joined_update(front, index, at, byte);
        assert(changed.drop_last() =~= front.update(index, parts[index].update(at, byte)));
        assert(front.take(index) =~= parts.take(index));
        assert(joined(changed) =~= joined(parts).update(offset(parts, index) + at, byte));
    }
}

/// Replacing a byte of one datagroup replaces that byte of the packet.
pub proof fn lemma_with_group_bytes(
    frame: ResponseFrame,
    index: int,
    replacement: GroupFrame,
    at: int,
    byte: u8,
)
    requires
        0 <= index < frame.groups.len(),
        0 <= at < frame.groups[index].bytes().len(),
        replacement.bytes() == frame.groups[index].bytes().update(at, byte),
    ensures
        0 <= group_position(frame, index) + at < frame.bytes().len(),
        frame.bytes()[group_position(frame, index) + at] == frame.groups[index].bytes()[at],
        frame.with_group(index, replacement).bytes() == frame.bytes().update(
            group_position(frame, index) + at,
            byte,
        ),
{
    let changed = frame.with_group(index, replacement);
    lemma_joined_update(frame.parts(), index, at, byte);
    assert(changed.parts() =~= frame.parts().update(
        index,
        frame.parts()[index].update(at, byte),
    ));
    assert(changed.bytes() =~= frame.bytes().update(group_position(frame, index) + at, byte));
}

/// Replacing a byte of one element replaces that byte of the datagroup.
pub proof fn lemma_with_element_bytes(
    frame: GroupFrame,
    index: int,
    replacement: ElementFrame,
    at: int,
    byte: u8,
)
    requires
        0 <= index < frame.elements.len(),
        0 <= at < frame.elements[index].bytes().len(),
        replacement.bytes() == frame.elements[index].bytes().update(at, byte),
    ensures
        0 <= element_position(0, frame, index) + at < frame.bytes().len(),
        frame.bytes()[element_position(0, frame, index) + at] == frame.elements[index].bytes()[at],
        frame.with_element(index, replacement).bytes() == frame.bytes().update(
            element_position(0, frame, index) + at,
            byte,
        ),
{
    let changed = frame.with_element(index, replacement);
    lemma_joined_update(frame.parts(), index, at, byte);
    assert(changed.parts() =~= frame.parts().update(
        index,
        frame.parts()[index].update(at, byte),
    ));
    assert(changed.bytes() =~= frame.bytes().update(element_position(0, frame, index) + at, byte));
}

/// A byte that is no digit in place of a digit of the length of the
/// metaframe makes the packet invalid.
pub proof fn damaged_metaframe_length_is_invalid(frame: ResponseFrame, at: int, byte: u8)
    requires
        frame.well_framed(),
        frame.readable(),
        damaged(frame.length, at, byte),
    ensures
        0 <= length_site(0, at) < frame.bytes().len(),
        frame.bytes()[length_site(0, at)] == frame.length[at],
        decode(frame.bytes().update(length_site(0, at), byte))
            == ClientResultView::InvalidResponse,
{
    let length = frame.length.update(at, byte);
    let changed = frame.with_length(length);
    let buf = changed.bytes();
    let header = header_bytes(length, ASTERISK, frame.count);
    assert(buf =~= frame.bytes().update(length_site(0, at), byte));
    assert(buf.subrange(0, buf.len() as int) =~= buf);
    lemma_holds_both(buf, 0, header, joined(changed.parts()));
    if byte == LF {
        lemma_frame_header_ended_early(buf, 0, frame.length, ASTERISK, frame.count, at);
    } else {
        lemma_frame_header_broken(buf, 0, length, ASTERISK, frame.count, at);
    }
}

/// A byte that is no digit in place of a digit of the number of datagroups
/// makes the packet invalid.
pub proof fn damaged_group_count_is_invalid(frame: ResponseFrame, at: int, byte: u8)
    requires
        frame.well_framed(),
        frame.readable(),
        damaged(frame.count, at, byte),
    ensures
        0 <= count_site(0, frame.length, at) < frame.bytes().len(),
        frame.bytes()[count_site(0, frame.length, at)] == frame.count[at],
        decode(frame.bytes().update(count_site(0, frame.length, at), byte))
            == ClientResultView::InvalidResponse,
{
    let count = frame.count.update(at, byte);
    let changed = frame.with_count(count);
    let buf = changed.bytes();
    let header = header_bytes(frame.length, ASTERISK, count);
    assert(buf =~= frame.bytes().update(count_site(0, frame.length, at), byte));
    assert(buf.subrange(0, buf.len() as int) =~= buf);
    lemma_holds_both(buf, 0, header, joined(changed.parts()));
    assert(!is_digit(count[at]));
    lemma_frame_header_read(buf, 0, frame.length, ASTERISK, count);
}

/// Replacing one datagroup of a sound packet leaves the datagroups in front
/// of it sound and in their places, and the metaframe too.
pub proof fn lemma_with_group(frame: ResponseFrame, index: int, replacement: GroupFrame)
    requires
        frame.well_framed(),
        frame.readable(),
        0 <= index < frame.groups.len(),
    ensures
        frame.with_group(index, replacement).well_headed(),
        groups_sound(frame.with_group(index, replacement), index),
        frame.with_group(index, replacement).groups[index] == replacement,
        group_position(frame.with_group(index, replacement), index) == group_position(
            frame,
            index,
        ),
        holds(
            frame.with_group(index, replacement).bytes(),
            group_position(frame, index),
            replacement.bytes(),
        ),
{
    let changed = frame.with_group(index, replacement);
    assert forall|i: int| 0 <= i < index implies (#[trigger] changed.groups[i]).well_framed()
        && changed.groups[i].readable() by {
        assert(frame.groups[i].well_framed());
        assert(frame.groups[i].readable());
    }
    assert(changed.parts().take(index) =~= frame.parts().take(index));
    lemma_group_held(changed, index);
}

/// Replacing one element of a sound datagroup leaves the elements in front
/// of it sound and in their places, and the header too.
pub proof fn lemma_with_element(frame: GroupFrame, index: int, replacement: ElementFrame)
    requires
        frame.well_framed(),
        frame.readable(),
        0 <= index < frame.elements.len(),
    ensures
        frame.with_element(index, replacement).well_headed(),
        elements_sound(frame.with_element(index, replacement), index),
        frame.with_element(index, replacement).elements[index] == replacement,
        forall|pos: int|
            element_position(pos, frame.with_element(index, replacement), index)
                == #[trigger] element_position(pos, frame, index),
{
    let changed = frame.with_element(index, replacement);
    assert forall|i: int| 0 <= i < index implies (#[trigger] changed.elements[i]).well_framed()
        && changed.elements[i].readable() by {
        assert(frame.elements[i].well_framed());
        assert(frame.elements[i].readable());
    }
    assert(changed.parts().take(index) =~= frame.parts().take(index));
}

/// A byte that is no digit in place of a digit of the length of a datagroup
/// makes the packet invalid.
pub proof fn damaged_group_length_is_invalid(frame: ResponseFrame, index: int, at: int, byte: u8)
    requires
        frame.well_framed(),
        frame.readable(),
        0 <= index < frame.groups.len(),
        damaged(frame.groups[index].length, at, byte),
    ensures
        0 <= length_site(group_position(frame, index), at) < frame.bytes().len(),
        frame.bytes()[length_site(group_position(frame, index), at)]
            == frame.groups[index].length[at],
        decode(frame.bytes().update(length_site(group_position(frame, index), at), byte))
            == ClientResultView::InvalidResponse,
{
    let old = frame.groups[index];
    let length = old.length.update(at, byte);
    let replacement = old.with_length(length);
    let changed = frame.with_group(index, replacement);
    assert(replacement.bytes() =~= old.bytes().update(1 + at, byte));
    lemma_with_group_bytes(frame, index, replacement, 1 + at, byte);
    lemma_with_group(frame, index, replacement);
    let buf = changed.bytes();
    let pos = group_position(frame, index);
    lemma_holds_both(
        buf,
        pos,
        header_bytes(length, AMPERSAND, old.count),
        joined(replacement.parts()),
    );
    assert(old.well_framed());
    if byte == LF {
        lemma_frame_header_ended_early(buf, pos, old.length, AMPERSAND, old.count, at);
    } else {
        lemma_frame_header_broken(buf, pos, length, AMPERSAND, old.count, at);
    }
    lemma_decode_fail(changed, index);
}

/// A byte that is no digit in place of a digit of the number of elements of
/// a datagroup makes the packet invalid.
pub proof fn damaged_element_count_is_invalid(frame: ResponseFrame, index: int, at: int, byte: u8)
    requires
        frame.well_framed(),
        frame.readable(),
        0 <= index < frame.groups.len(),
        damaged(frame.groups[index].count, at, byte),
    ensures
        0 <= count_site(group_position(frame, index), frame.groups[index].length, at)
            < frame.bytes().len(),
        frame.bytes()[count_site(group_position(frame, index), frame.groups[index].length, at)]
            == frame.groups[index].count[at],
        decode(
            frame.bytes().update(
                count_site(group_position(frame, index), frame.groups[index].length, at),
                byte,
            ),
        ) == ClientResultView::InvalidResponse,
{
    let old = frame.groups[index];
    let count = old.count.update(at, byte);
    let replacement = old.with_count(count);
    let changed = frame.with_group(index, replacement);
    assert(replacement.bytes() =~= old.bytes().update(3 + old.length.len() + at, byte));
    lemma_with_group_bytes(frame, index, replacement, 3 + old.length.len() + at, byte);
    lemma_with_group(frame, index, replacement);
    let buf = changed.bytes();
    let pos = group_position(frame, index);
    lemma_holds_both(
        buf,
        pos,
        header_bytes(old.length, AMPERSAND, count),
        joined(replacement.parts()),
    );
    assert(old.well_framed());
    assert(!is_digit(count[at]));
    lemma_frame_header_read(buf, pos, old.length, AMPERSAND, count);
    lemma_decode_fail(changed, index);
}

/// A packet in which one element of a sound packet was replaced decodes to
/// the error of that element, if it cannot be read wherever it stands.
pub proof fn lemma_replaced_element_fails(
    frame: ResponseFrame,
    index: int,
    inner: int,
    replacement: ElementFrame,
    error: DecodeError,
)
    requires
        frame.well_framed(),
        frame.readable(),
        0 <= index < frame.groups.len(),
        0 <= inner < frame.groups[index].elements.len(),
        forall|buf: Seq<u8>, pos: int| #[trigger]
            holds(buf, pos, replacement.bytes()) ==> element(buf, pos) == Err::<
                (DataTypeView, int),
                DecodeError,
            >(error),
    ensures
        decode(
            frame.with_group(index, frame.groups[index].with_element(inner, replacement)).bytes(),
        ) == failure(error),
{
    let old = frame.groups[index];
    assert(old.well_framed());
    assert(old.readable());
    let group_frame = old.with_element(inner, replacement);
    let changed = frame.with_group(index, group_frame);
    lemma_with_element(old, inner, replacement);
    lemma_with_group(frame, index, group_frame);
    let buf = changed.bytes();
    let start = group_position(changed, index);
    lemma_element_held(buf, start, group_frame, inner);
    let pos = element_position(start, group_frame, inner);
    assert(holds(buf, pos, replacement.bytes()));
    lemma_group_fail(buf, start, group_frame, inner);
    lemma_decode_fail(changed, index);
}

/// Replacing a digit of the length of an element replaces the byte of the
/// packet at the place of that digit.
pub proof fn lemma_element_length_site(
    frame: ResponseFrame,
    index: int,
    inner: int,
    at: int,
    byte: u8,
)
    requires
        0 <= index < frame.groups.len(),
        0 <= inner < frame.groups[index].elements.len(),
        0 <= at < frame.groups[index].elements[inner].length.len(),
    ensures
        ({
            let old = frame.groups[index].elements[inner];
            let site = length_site(
                element_position(group_position(frame, index), frame.groups[index], inner),
                at,
            );
            &&& 0 <= site < frame.bytes().len()
            &&& frame.bytes()[site] == old.length[at]
            &&& frame.with_group(
                index,
                frame.groups[index].with_element(
                    inner,
                    old.with_length(old.length.update(at, byte)),
                ),
            ).bytes() == frame.bytes().update(site, byte)
        }),
{
    let old_group = frame.groups[index];
    let old = old_group.elements[inner];
    let replacement = old.with_length(old.length.update(at, byte));
    let group_frame = old_group.with_element(inner, replacement);
    assert(replacement.bytes() =~= old.bytes().update(1 + at, byte));
    assert(old.bytes()[1 + at] == old.length[at]);
    lemma_with_element_bytes(old_group, inner, replacement, 1 + at, byte);
    lemma_with_group_bytes(
        frame,
        index,
        group_frame,
        element_position(0, old_group, inner) + 1 + at,
        byte,
    );
}

/// A byte that is neither a digit nor a line feed in place of a digit of the
/// length of an element makes the packet invalid.
pub proof fn damaged_element_length_is_invalid(
    frame: ResponseFrame,
    index: int,
    inner: int,
    at: int,
    byte: u8,
)
    requires
        frame.well_framed(),
        frame.readable(),
        0 <= index < frame.groups.len(),
        0 <= inner < frame.groups[index].elements.len(),
        damaged(frame.groups[index].elements[inner].length, at, byte),
        byte != LF,
    ensures
        ({
            let site = length_site(
                element_position(group_position(frame, index), frame.groups[index], inner),
                at,
            );
            &&& 0 <= site < frame.bytes().len()
            &&& frame.bytes()[site] == frame.groups[index].elements[inner].length[at]
            &&& decode(frame.bytes().update(site, byte)) == ClientResultView::InvalidResponse
        }),
{
    let old = frame.groups[index].elements[inner];
    assert(frame.groups[index].well_framed());
    assert(old.well_framed());
    let replacement = old.with_length(old.length.update(at, byte));
    lemma_element_length_site(frame, index, inner, at, byte);
    assert forall|buf: Seq<u8>, pos: int| #[trigger]
        holds(buf, pos, replacement.bytes()) implies element(buf, pos) == Err::<
        (DataTypeView, int),
        DecodeError,
    >(DecodeError::InvalidResponse) by {
        lemma_element_broken(buf, pos, replacement, at);
    }
    lemma_replaced_element_fails(frame, index, inner, replacement, DecodeError::InvalidResponse);
}

/// Text that is no number in place of the payload of a response code or of
/// an unsigned integer makes the packet a parse error. The length of the
/// element is taken to announce the new payload, so the framing stays sound.
pub proof fn replaced_number_is_parse_error(
    frame: ResponseFrame,
    index: int,
    inner: int,
    length: Seq<u8>,
    payload: Seq<u8>,
)
    requires
        frame.well_framed(),
        frame.readable(),
        0 <= index < frame.groups.len(),
        0 <= inner < frame.groups[index].elements.len(),
        frame.groups[index].elements[inner].tag == BANG
            || frame.groups[index].elements[inner].tag == COLON,
        decimal_field(length, payload.len()),
        parse_u64(payload) is None,
    ensures
        decode(
            frame.with_group(
                index,
                frame.groups[index].with_element(
                    inner,
                    frame.groups[index].elements[inner].with_payload(length, payload),
                ),
            ).bytes(),
        ) == ClientResultView::ParseError,
{
    let old = frame.groups[index].elements[inner];
    let replacement = old.with_payload(length, payload);
    assert forall|buf: Seq<u8>, pos: int| #[trigger]
        holds(buf, pos, replacement.bytes()) implies element(buf, pos) == Err::<
        (DataTypeView, int),
        DecodeError,
    >(DecodeError::ParseError) by {
        lemma_element_read(buf, pos, replacement);
    }
    lemma_replaced_element_fails(frame, index, inner, replacement, DecodeError::ParseError);
}

/// Any bytes in place of the payload of a string leave the packet readable:
/// it decodes to the values of its elements as before, with the text of the
/// new payload as the value of the string. The length of the element is taken
/// to announce the new payload.
pub proof fn replaced_string_decodes(
    frame: ResponseFrame,
    index: int,
    inner: int,
    length: Seq<u8>,
    payload: Seq<u8>,
)
    requires
        frame.well_framed(),
        frame.readable(),
        0 <= index < frame.groups.len(),
        0 <= inner < frame.groups[index].elements.len(),
        frame.groups[index].elements[inner].tag == PLUS,
        decimal_field(length, payload.len()),
    ensures
        ({
            let changed = frame.with_group(
                index,
                frame.groups[index].with_element(
                    inner,
                    frame.groups[index].elements[inner].with_payload(length, payload),
                ),
            );
            &&& decode(changed.bytes()) == classify(changed.values(), changed.bytes().len())
            &&& changed.values()[index][inner] == DataTypeView::Str(payload_text(payload))
        }),
{
    let old_group = frame.groups[index];
    let old = old_group.elements[inner];
    let replacement = old.with_payload(length, payload);
    let group_frame = old_group.with_element(inner, replacement);
    let changed = frame.with_group(index, group_frame);
    assert(old_group.well_framed());
    assert(old_group.readable());
    assert forall|i: int| 0 <= i < group_frame.elements.len() implies (
    #[trigger] group_frame.elements[i]).well_framed() && group_frame.elements[i].readable() by {
        if i != inner {
            assert(old_group.elements[i].well_framed());
            assert(old_group.elements[i].readable());
        }
    }
    assert forall|i: int| 0 <= i < changed.groups.len() implies (
    #[trigger] changed.groups[i]).well_framed() && changed.groups[i].readable() by {
        if i != index {
            assert(frame.groups[i].well_framed());
            assert(frame.groups[i].readable());
        }
    }
    well_formed_packet_decodes(changed);
}

} // verus!
