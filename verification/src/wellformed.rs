//! What the decoder makes of the packets that the grammar admits.
//!
//! The functions of [`crate::deserializer`] read a buffer part by part. The
//! lemmas of this module say for every part what is read where a buffer holds
//! the bytes of a frame: the fields of the frame, and the position behind it.
//! From them follow the statements on whole packets: a well-framed packet
//! decodes to the values of its elements, in the shape that their number asks
//! for, unless a payload does not hold what its tag announces; then it
//! decodes to a parse error.

use crate::decimal::{
    all_digits, decimal_value, is_digit, lemma_decimal_value_prefix, lemma_digits_end_is, LF,
};
use crate::deserializer::{
    classify, decode, element, element_value, elements, failure, frame_header, group, groups,
    is_element_tag, lemma_elements_error_persists, lemma_groups_error_persists, length_field,
    line, payload_text, ClientResultView, DataTypeView, DecodeError, AMPERSAND, ASTERISK, HASH,
};
use crate::frames::{
    element_position, encode_response, group_position, header_bytes, holds, joined,
    lemma_encoded_element, lemma_encoded_group, lemma_encoded_response, lemma_holds_both,
    lemma_holds_bytes, lemma_holds_part, offset, ElementFrame, GroupFrame, ResponseFrame,
};
use crate::truncation::truncated_packet_is_incomplete;
use vstd::prelude::*;

verus! {

/// Digits that are closed by a line feed are read as a length field with the
/// value of the digits.
pub proof fn lemma_length_field_read(buf: Seq<u8>, pos: int, digits: Seq<u8>)
    requires
        holds(buf, pos, digits + seq![LF]),
        all_digits(digits),
    ensures
        length_field(buf, pos) == Ok::<(nat, int), DecodeError>(
            (decimal_value(digits), pos + digits.len() + 1),
        ),
{
    lemma_holds_both(buf, pos, digits, seq![LF]);
    lemma_holds_bytes(buf, pos, digits);
    lemma_holds_bytes(buf, pos + digits.len(), seq![LF]);
    let end = pos + digits.len();
    assert(seq![LF][0] == LF);
    assert forall|i: int| pos <= i < end implies is_digit(#[trigger] buf[i]) by {
        assert(buf[pos + (i - pos)] == digits[i - pos]);
    }
    lemma_digits_end_is(buf, pos, end);
}

/// Digits that stop at a byte which is neither a digit nor a line feed are
/// no length field.
pub proof fn lemma_length_field_broken(buf: Seq<u8>, pos: int, digits: Seq<u8>, at: int)
    requires
        holds(buf, pos, digits),
        0 <= at < digits.len(),
        forall|i: int| 0 <= i < at ==> is_digit(#[trigger] digits[i]),
        !is_digit(digits[at]),
        digits[at] != LF,
    ensures
        length_field(buf, pos) == Err::<(nat, int), DecodeError>(DecodeError::InvalidResponse),
{
    lemma_holds_bytes(buf, pos, digits);
    let end = pos + at;
    assert(buf[pos + at] == digits[at]);
    assert forall|i: int| pos <= i < end implies is_digit(#[trigger] buf[i]) by {
        assert(buf[pos + (i - pos)] == digits[i - pos]);
    }
    lemma_digits_end_is(buf, pos, end);
}

/// A length field that is followed by as many bytes as it announces is read
/// as a line with these bytes.
pub proof fn lemma_line_read(buf: Seq<u8>, pos: int, digits: Seq<u8>, content: Seq<u8>)
    requires
        holds(buf, pos, digits + seq![LF] + content),
        all_digits(digits),
        decimal_value(digits) == content.len(),
    ensures
        line(buf, pos) == Ok::<(Seq<u8>, int), DecodeError>(
            (content, pos + digits.len() + 1 + content.len()),
        ),
{
    lemma_holds_both(buf, pos, digits + seq![LF], content);
    lemma_length_field_read(buf, pos, digits);
}

/// An envelope with a sound length is read as the count in its line, and is
/// invalid if a byte of the count is no digit.
pub proof fn lemma_frame_header_read(
    buf: Seq<u8>,
    pos: int,
    length: Seq<u8>,
    marker: u8,
    count: Seq<u8>,
)
    requires
        holds(buf, pos, header_bytes(length, marker, count)),
        all_digits(length),
        decimal_value(length) == 1 + count.len(),
    ensures
        frame_header(buf, pos, marker) == if all_digits(count) {
            Ok::<(nat, int), DecodeError>(
                (decimal_value(count), pos + header_bytes(length, marker, count).len()),
            )
        } else {
            Err::<(nat, int), DecodeError>(DecodeError::InvalidResponse)
        },
{
    let content = seq![marker] + count;
    let framed = length + seq![LF] + content;
    assert(header_bytes(length, marker, count) =~= seq![HASH] + (framed + seq![LF]));
    lemma_holds_both(buf, pos, seq![HASH], framed + seq![LF]);
    lemma_holds_bytes(buf, pos, seq![HASH]);
    assert(seq![HASH][0] == HASH);
    lemma_holds_both(buf, pos + 1, framed, seq![LF]);
    lemma_line_read(buf, pos + 1, length, content);
    lemma_holds_bytes(buf, pos + 1 + framed.len(), seq![LF]);
    assert(seq![LF][0] == LF);
    assert(content.skip(1) =~= count);
    assert(content[0] == marker);
}

/// An envelope whose length holds a byte that is neither a digit nor a line
/// feed is invalid.
pub proof fn lemma_frame_header_broken(
    buf: Seq<u8>,
    pos: int,
    length: Seq<u8>,
    marker: u8,
    count: Seq<u8>,
    at: int,
)
    requires
        holds(buf, pos, header_bytes(length, marker, count)),
        0 <= at < length.len(),
        forall|i: int| 0 <= i < at ==> is_digit(#[trigger] length[i]),
        !is_digit(length[at]),
        length[at] != LF,
    ensures
        frame_header(buf, pos, marker) == Err::<(nat, int), DecodeError>(
            DecodeError::InvalidResponse,
        ),
{
    let rest = seq![LF] + seq![marker] + count + seq![LF];
    assert(header_bytes(length, marker, count) =~= seq![HASH] + (length + rest));
    lemma_holds_both(buf, pos, seq![HASH], length + rest);
    lemma_holds_bytes(buf, pos, seq![HASH]);
    assert(seq![HASH][0] == HASH);
    lemma_holds_both(buf, pos + 1, length, rest);
    lemma_length_field_broken(buf, pos + 1, length, at);
}

/// An envelope whose length holds a line feed in place of a digit is
/// invalid: the length ends at the line feed, and what follows it is no line
/// that starts with the marker and ends in a line feed.
pub proof fn lemma_frame_header_ended_early(
    buf: Seq<u8>,
    pos: int,
    length: Seq<u8>,
    marker: u8,
    count: Seq<u8>,
    at: int,
)
    requires
        holds(buf, pos, header_bytes(length.update(at, LF), marker, count)),
        0 <= at < length.len(),
        all_digits(length),
        decimal_value(length) == 1 + count.len(),
        !is_digit(marker),
        marker != LF,
    ensures
        frame_header(buf, pos, marker) == Err::<(nat, int), DecodeError>(
            DecodeError::InvalidResponse,
        ),
{
    let cut = length.update(at, LF);
    let header = header_bytes(cut, marker, count);
    lemma_holds_bytes(buf, pos, header);
    assert(header[0] == HASH);
    assert(header[1 + at] == LF);
    assert(header[2 + at] != marker) by {
        if at + 1 < length.len() {
            assert(header[2 + at] == length[at + 1]);
        } else {
            assert(header[2 + at] == LF);
        }
    }
    let first = pos + 1;
    let end = first + at;
    assert forall|i: int| first <= i < end implies is_digit(#[trigger] buf[i]) by {
        assert(buf[pos + (i - pos)] == header[i - pos]);
        assert(header[i - pos] == length[i - pos - 1]);
    }
    assert(buf[pos + (1 + at)] == header[1 + at]);
    lemma_digits_end_is(buf, first, end);
    assert(buf.subrange(first, end) =~= length.take(at)) by {
        assert forall|i: int| 0 <= i < at implies buf.subrange(first, end)[i] == length.take(
            at,
        )[i] by {
            assert(buf[pos + (1 + i)] == header[1 + i]);
        }
    }
    lemma_decimal_value_prefix(length, at);
    let announced = decimal_value(length.take(at));
    let start = end + 1;
    assert(length_field(buf, first) == Ok::<(nat, int), DecodeError>((announced, start)));
    assert(start + announced < pos + header.len());
    let content = buf.subrange(start, start + announced);
    assert(line(buf, first) == Ok::<(Seq<u8>, int), DecodeError>((content, start + announced)));
    if announced > 0 {
        assert(content[0] == buf[start]);
        assert(buf[pos + (2 + at)] == header[2 + at]);
    }
}

/// A well-framed element is read as its value, or as the error of its
/// payload, which is a parse error.
pub proof fn lemma_element_read(buf: Seq<u8>, pos: int, frame: ElementFrame)
    requires
        holds(buf, pos, frame.bytes()),
        frame.well_framed(),
    ensures
        element(buf, pos) == match frame.value() {
            Ok(value) => Ok::<(DataTypeView, int), DecodeError>(
                (value, pos + frame.bytes().len()),
            ),
            Err(e) => Err::<(DataTypeView, int), DecodeError>(DecodeError::ParseError),
        },
{
    let framed = frame.length + seq![LF] + frame.payload;
    assert(frame.bytes() =~= seq![frame.tag] + (framed + seq![LF]));
    lemma_holds_both(buf, pos, seq![frame.tag], framed + seq![LF]);
    lemma_holds_bytes(buf, pos, seq![frame.tag]);
    assert(seq![frame.tag][0] == frame.tag);
    lemma_holds_both(buf, pos + 1, framed, seq![LF]);
    lemma_line_read(buf, pos + 1, frame.length, frame.payload);
    lemma_holds_bytes(buf, pos + 1 + framed.len(), seq![LF]);
    assert(seq![LF][0] == LF);
}

/// An element whose length holds a byte that is neither a digit nor a line
/// feed is invalid.
pub proof fn lemma_element_broken(buf: Seq<u8>, pos: int, frame: ElementFrame, at: int)
    requires
        holds(buf, pos, frame.bytes()),
        is_element_tag(frame.tag),
        0 <= at < frame.length.len(),
        forall|i: int| 0 <= i < at ==> is_digit(#[trigger] frame.length[i]),
        !is_digit(frame.length[at]),
        frame.length[at] != LF,
    ensures
        element(buf, pos) == Err::<(DataTypeView, int), DecodeError>(
            DecodeError::InvalidResponse,
        ),
{
    let rest = seq![LF] + frame.payload + seq![LF];
    assert(frame.bytes() =~= seq![frame.tag] + (frame.length + rest));
    lemma_holds_both(buf, pos, seq![frame.tag], frame.length + rest);
    lemma_holds_bytes(buf, pos, seq![frame.tag]);
    assert(seq![frame.tag][0] == frame.tag);
    lemma_holds_both(buf, pos + 1, frame.length, rest);
    lemma_length_field_broken(buf, pos + 1, frame.length, at);
}

/// Whether the first `count` elements of the datagroup are well framed and
/// readable.
pub open spec fn elements_sound(frame: GroupFrame, count: int) -> bool {
    forall|i: int|
        0 <= i < count ==> (#[trigger] frame.elements[i]).well_framed()
            && frame.elements[i].readable()
}

/// Whether the first `count` datagroups of the packet are well framed and
/// readable.
pub open spec fn groups_sound(frame: ResponseFrame, count: int) -> bool {
    forall|i: int|
        0 <= i < count ==> (#[trigger] frame.groups[i]).well_framed()
            && frame.groups[i].readable()
}

/// Sound elements are read as their values, one after the other.
pub proof fn lemma_elements_read(buf: Seq<u8>, start: int, frame: GroupFrame, count: int)
    requires
        holds(buf, start, joined(frame.parts())),
        0 <= count <= frame.elements.len(),
        elements_sound(frame, count),
    ensures
        elements(buf, start, count as nat) == Ok::<(Seq<DataTypeView>, int), DecodeError>(
            (frame.values().take(count), start + offset(frame.parts(), count)),
        ),
    decreases count,
{
    if count == 0 {
        assert(frame.parts().take(0) =~= Seq::<Seq<u8>>::empty());
        assert(frame.values().take(0) =~= Seq::<DataTypeView>::empty());
    } else {
        let last = count - 1;
        lemma_elements_read(buf, start, frame, last);
        lemma_holds_part(buf, start, frame.parts(), last);
        assert(frame.elements[last].well_framed());
        lemma_element_read(buf, start + offset(frame.parts(), last), frame.elements[last]);
        assert(frame.values().take(count) =~= frame.values().take(last).push(
            frame.elements[last].value()->Ok_0,
        ));
    }
}

/// Where the element with the index `index` cannot be read and the elements
/// in front of it are sound, no count beyond `index` can be met, and the
/// error is that of this element.
pub proof fn lemma_elements_fail(
    buf: Seq<u8>,
    start: int,
    frame: GroupFrame,
    index: int,
    count: nat,
)
    requires
        holds(buf, start, joined(frame.parts())),
        0 <= index < frame.elements.len(),
        index < count,
        elements_sound(frame, index),
        element(buf, start + offset(frame.parts(), index)) is Err,
    ensures
        elements(buf, start, count) == Err::<(Seq<DataTypeView>, int), DecodeError>(
            element(buf, start + offset(frame.parts(), index))->Err_0,
        ),
{
    lemma_elements_read(buf, start, frame, index);
    assert(elements(buf, start, (index + 1) as nat) is Err);
    lemma_elements_error_persists(buf, start, (index + 1) as nat, count);
}

/// The envelope of a datagroup with a sound header is read as the number of
/// its elements, and the elements stand behind it.
pub proof fn lemma_group_header_read(buf: Seq<u8>, pos: int, frame: GroupFrame)
    requires
        holds(buf, pos, frame.bytes()),
        frame.well_headed(),
    ensures
        frame_header(buf, pos, AMPERSAND) == Ok::<(nat, int), DecodeError>(
            (
                frame.elements.len(),
                pos + header_bytes(frame.length, AMPERSAND, frame.count).len(),
            ),
        ),
        holds(
            buf,
            pos + header_bytes(frame.length, AMPERSAND, frame.count).len(),
            joined(frame.parts()),
        ),
{
    let header = header_bytes(frame.length, AMPERSAND, frame.count);
    lemma_holds_both(buf, pos, header, joined(frame.parts()));
    lemma_frame_header_read(buf, pos, frame.length, AMPERSAND, frame.count);
}

/// A sound datagroup is read as the values of its elements.
pub proof fn lemma_group_read(buf: Seq<u8>, pos: int, frame: GroupFrame)
    requires
        holds(buf, pos, frame.bytes()),
        frame.well_framed(),
        frame.readable(),
    ensures
        group(buf, pos) == Ok::<(Seq<DataTypeView>, int), DecodeError>(
            (frame.values(), pos + frame.bytes().len()),
        ),
{
    let header = header_bytes(frame.length, AMPERSAND, frame.count);
    let count = frame.elements.len() as int;
    lemma_group_header_read(buf, pos, frame);
    lemma_elements_read(buf, pos + header.len(), frame, count);
    assert(frame.values().take(count) =~= frame.values());
    assert(frame.parts().take(count) =~= frame.parts());
}

/// A buffer that holds a datagroup with a sound header holds each element of
/// it where its position says.
pub proof fn lemma_element_held(buf: Seq<u8>, pos: int, frame: GroupFrame, index: int)
    requires
        holds(buf, pos, frame.bytes()),
        frame.well_headed(),
        0 <= index < frame.elements.len(),
    ensures
        holds(buf, element_position(pos, frame, index), frame.elements[index].bytes()),
{
    lemma_group_header_read(buf, pos, frame);
    let start = pos + header_bytes(frame.length, AMPERSAND, frame.count).len();
    lemma_holds_part(buf, start, frame.parts(), index);
}

/// A datagroup with a sound header fails where its first element fails that
/// cannot be read.
pub proof fn lemma_group_fail(buf: Seq<u8>, pos: int, frame: GroupFrame, index: int)
    requires
        holds(buf, pos, frame.bytes()),
        frame.well_headed(),
        0 <= index < frame.elements.len(),
        elements_sound(frame, index),
        element(buf, element_position(pos, frame, index)) is Err,
    ensures
        group(buf, pos) == Err::<(Seq<DataTypeView>, int), DecodeError>(
            element(buf, element_position(pos, frame, index))->Err_0,
        ),
{
    let header = header_bytes(frame.length, AMPERSAND, frame.count);
    lemma_group_header_read(buf, pos, frame);
    lemma_elements_fail(buf, pos + header.len(), frame, index, frame.elements.len());
}

/// Sound datagroups are read as their values, one after the other.
pub proof fn lemma_groups_read(buf: Seq<u8>, start: int, frame: ResponseFrame, count: int)
    requires
        holds(buf, start, joined(frame.parts())),
        0 <= count <= frame.groups.len(),
        groups_sound(frame, count),
    ensures
        groups(buf, start, count as nat) == Ok::<(Seq<Seq<DataTypeView>>, int), DecodeError>(
            (frame.values().take(count), start + offset(frame.parts(), count)),
        ),
    decreases count,
{
    if count == 0 {
        assert(frame.parts().take(0) =~= Seq::<Seq<u8>>::empty());
        assert(frame.values().take(0) =~= Seq::<Seq<DataTypeView>>::empty());
    } else {
        let last = count - 1;
        lemma_groups_read(buf, start, frame, last);
        lemma_holds_part(buf, start, frame.parts(), last);
        assert(frame.groups[last].well_framed());
        lemma_group_read(buf, start + offset(frame.parts(), last), frame.groups[last]);
        assert(frame.values().take(count) =~= frame.values().take(last).push(
            frame.groups[last].values(),
        ));
    }
}

/// Where the datagroup with the index `index` cannot be read and the
/// datagroups in front of it are sound, no count beyond `index` can be met,
/// and the error is that of this datagroup.
pub proof fn lemma_groups_fail(
    buf: Seq<u8>,
    start: int,
    frame: ResponseFrame,
    index: int,
    count: nat,
)
    requires
        holds(buf, start, joined(frame.parts())),
        0 <= index < frame.groups.len(),
        index < count,
        groups_sound(frame, index),
        group(buf, start + offset(frame.parts(), index)) is Err,
    ensures
        groups(buf, start, count) == Err::<(Seq<Seq<DataTypeView>>, int), DecodeError>(
            group(buf, start + offset(frame.parts(), index))->Err_0,
        ),
{
    lemma_groups_read(buf, start, frame, index);
    assert(groups(buf, start, (index + 1) as nat) is Err);
    lemma_groups_error_persists(buf, start, (index + 1) as nat, count);
}

/// The metaframe of a packet with a sound header is read as the number of
/// its datagroups, and the datagroups stand behind it. Such a packet has six
/// bytes at least.
pub proof fn lemma_metaframe_read(frame: ResponseFrame)
    requires
        frame.well_headed(),
    ensures
        frame.bytes().len() >= 6,
        frame_header(frame.bytes(), 0, ASTERISK) == Ok::<(nat, int), DecodeError>(
            (frame.groups.len(), header_bytes(frame.length, ASTERISK, frame.count).len() as int),
        ),
        holds(
            frame.bytes(),
            header_bytes(frame.length, ASTERISK, frame.count).len() as int,
            joined(frame.parts()),
        ),
{
    let buf = frame.bytes();
    let header = header_bytes(frame.length, ASTERISK, frame.count);
    assert(buf.subrange(0, buf.len() as int) =~= buf);
    lemma_holds_both(buf, 0, header, joined(frame.parts()));
    lemma_frame_header_read(buf, 0, frame.length, ASTERISK, frame.count);
}

/// The bytes of a packet with a sound metaframe hold each datagroup where
/// its position says.
pub proof fn lemma_group_held(frame: ResponseFrame, index: int)
    requires
        frame.well_headed(),
        0 <= index < frame.groups.len(),
    ensures
        holds(frame.bytes(), group_position(frame, index), frame.groups[index].bytes()),
{
    lemma_metaframe_read(frame);
    let start = header_bytes(frame.length, ASTERISK, frame.count).len() as int;
    lemma_holds_part(frame.bytes(), start, frame.parts(), index);
}

/// A packet with a sound metaframe decodes to the error of its first
/// datagroup that cannot be read.
pub proof fn lemma_decode_fail(frame: ResponseFrame, index: int)
    requires
        frame.well_headed(),
        0 <= index < frame.groups.len(),
        groups_sound(frame, index),
        group(frame.bytes(), group_position(frame, index)) is Err,
    ensures
        decode(frame.bytes()) == failure(
            group(frame.bytes(), group_position(frame, index))->Err_0,
        ),
{
    let start = header_bytes(frame.length, ASTERISK, frame.count).len() as int;
    lemma_metaframe_read(frame);
    lemma_groups_fail(frame.bytes(), start, frame, index, frame.groups.len());
}

/// A well-framed packet whose payloads hold what their tags announce decodes
/// to the values of its elements, in the shape that [`classify`] gives them,
/// and all of its bytes are consumed.
pub proof fn well_formed_packet_decodes(frame: ResponseFrame)
    requires
        frame.well_framed(),
        frame.readable(),
    ensures
        decode(frame.bytes()) == classify(frame.values(), frame.bytes().len()),
{
    let start = header_bytes(frame.length, ASTERISK, frame.count).len() as int;
    let count = frame.groups.len() as int;
    lemma_metaframe_read(frame);
    lemma_groups_read(frame.bytes(), start, frame, count);
    assert(frame.values().take(count) =~= frame.values());
    assert(frame.parts().take(count) =~= frame.parts());
}

/// A packet of one datagroup with one element decodes to that element, and
/// all of its bytes are consumed.
pub proof fn single_element_decodes_to_item(frame: ResponseFrame)
    requires
        frame.well_framed(),
        frame.readable(),
        frame.groups.len() == 1,
        frame.groups[0].elements.len() == 1,
    ensures
        decode(frame.bytes()) == ClientResultView::ResponseItem(
            frame.groups[0].elements[0].value()->Ok_0,
            frame.bytes().len(),
        ),
{
    well_formed_packet_decodes(frame);
}

/// A packet of one datagroup with more than one element decodes to the
/// values of these elements, as many as there are and in the order of the
/// wire, and all of its bytes are consumed. So does a packet of one datagroup
/// without elements.
pub proof fn single_group_decodes_to_group(frame: ResponseFrame)
    requires
        frame.well_framed(),
        frame.readable(),
        frame.groups.len() == 1,
        frame.groups[0].elements.len() != 1,
    ensures
        decode(frame.bytes()) matches ClientResultView::SimpleResponse(values, consumed)
            && consumed == frame.bytes().len() && values.len() == frame.groups[0].elements.len()
            && forall|i: int|
            0 <= i < values.len() ==> frame.groups[0].elements[i].value() == Ok::<
                DataTypeView,
                DecodeError,
            >(#[trigger] values[i]),
{
    well_formed_packet_decodes(frame);
    assert(frame.groups[0].readable());
    assert forall|i: int| 0 <= i < frame.groups[0].elements.len() implies (
    #[trigger] frame.groups[0].elements[i]).value() is Ok by {
        assert(frame.groups[0].elements[i].readable());
    }
}

/// A packet of several datagroups, or of none, decodes to all of them: as
/// many datagroups as there are, each with as many values as its count
/// announces, all in the order of the wire. All bytes of the packet are
/// consumed.
pub proof fn several_groups_decode_to_batch(frame: ResponseFrame)
    requires
        frame.well_framed(),
        frame.readable(),
        frame.groups.len() != 1,
    ensures
        decode(frame.bytes()) matches ClientResultView::PipelinedResponse(values, consumed)
            && consumed == frame.bytes().len() && values.len() == frame.groups.len()
            && decimal_value(frame.count) == frame.groups.len() && forall|g: int|
            0 <= g < values.len() ==> (#[trigger] values[g]).len() == decimal_value(
                frame.groups[g].count,
            ) && values[g].len() == frame.groups[g].elements.len() && forall|i: int|
                0 <= i < values[g].len() ==> frame.groups[g].elements[i].value() == Ok::<
                    DataTypeView,
                    DecodeError,
                >(#[trigger] values[g][i]),
{
    well_formed_packet_decodes(frame);
    let values = frame.values();
    assert forall|g: int| 0 <= g < values.len() implies (#[trigger] values[g]).len()
        == decimal_value(frame.groups[g].count) && values[g].len()
        == frame.groups[g].elements.len() && forall|i: int|
        0 <= i < values[g].len() ==> frame.groups[g].elements[i].value() == Ok::<
            DataTypeView,
            DecodeError,
        >(#[trigger] values[g][i]) by {
        assert(frame.groups[g].well_framed());
        assert(frame.groups[g].readable());
        assert forall|i: int| 0 <= i < values[g].len() implies frame.groups[g].elements[i].value()
            == Ok::<DataTypeView, DecodeError>(#[trigger] values[g][i]) by {
            assert(frame.groups[g].elements[i].readable());
        }
    }
}

/// The first element of a datagroup whose payload does not hold what its tag
/// announces, looked for from the index `from` on.
pub proof fn first_unreadable_element(frame: GroupFrame, from: int) -> (index: int)
    requires
        0 <= from <= frame.elements.len(),
        forall|i: int| 0 <= i < from ==> (#[trigger] frame.elements[i]).readable(),
        !frame.readable(),
    ensures
        from <= index < frame.elements.len(),
        !frame.elements[index].readable(),
        forall|i: int| 0 <= i < index ==> (#[trigger] frame.elements[i]).readable(),
    decreases frame.elements.len() - from,
{
    if from < frame.elements.len() && frame.elements[from].readable() {
        first_unreadable_element(frame, from + 1)
    } else {
        from
    }
}

/// The first datagroup of a packet with a payload that does not hold what its
/// tag announces, looked for from the index `from` on.
pub proof fn first_unreadable_group(frame: ResponseFrame, from: int) -> (index: int)
    requires
        0 <= from <= frame.groups.len(),
        forall|i: int| 0 <= i < from ==> (#[trigger] frame.groups[i]).readable(),
        !frame.readable(),
    ensures
        from <= index < frame.groups.len(),
        !frame.groups[index].readable(),
        forall|i: int| 0 <= i < index ==> (#[trigger] frame.groups[i]).readable(),
    decreases frame.groups.len() - from,
{
    if from < frame.groups.len() && frame.groups[from].readable() {
        first_unreadable_group(frame, from + 1)
    } else {
        from
    }
}

/// A well-framed packet with a payload that does not hold what its tag
/// announces decodes to a parse error, wherever that payload stands.
pub proof fn unreadable_packet_is_parse_error(frame: ResponseFrame)
    requires
        frame.well_framed(),
        !frame.readable(),
    ensures
        decode(frame.bytes()) == ClientResultView::ParseError,
{
    let index = first_unreadable_group(frame, 0);
    let inner_frame = frame.groups[index];
    assert(inner_frame.well_framed());
    let inner = first_unreadable_element(inner_frame, 0);
    assert(inner_frame.elements[inner].well_framed());
    assert forall|i: int| 0 <= i < inner implies (#[trigger] inner_frame.elements[i]).well_framed()
        && inner_frame.elements[i].readable() by {}
    assert forall|i: int| 0 <= i < index implies (#[trigger] frame.groups[i]).well_framed()
        && frame.groups[i].readable() by {}
    let buf = frame.bytes();
    let pos = group_position(frame, index);
    lemma_group_held(frame, index);
    lemma_element_held(buf, pos, inner_frame, inner);
    lemma_element_read(buf, element_position(pos, inner_frame, inner), inner_frame.elements[inner]);
    lemma_group_fail(buf, pos, inner_frame, inner);
    lemma_decode_fail(frame, index);
}

/// Cutting a well-formed packet short makes it incomplete: every proper
/// prefix of a well-framed packet whose payloads hold what their tags
/// announce decodes to [`ClientResultView::Incomplete`].
pub proof fn truncated_well_formed_packet_is_incomplete(frame: ResponseFrame, cut: int)
    requires
        frame.well_framed(),
        frame.readable(),
        0 <= cut < frame.bytes().len(),
    ensures
        decode(frame.bytes().take(cut)) == ClientResultView::Incomplete,
{
    well_formed_packet_decodes(frame);
    truncated_packet_is_incomplete(frame.bytes(), cut);
}

/// Whether every element of `contents` has an element tag and a payload that
/// holds what the tag announces.
pub open spec fn encodable(contents: Seq<Seq<(u8, Seq<u8>)>>) -> bool {
    forall|g: int, i: int|
        0 <= g < contents.len() && 0 <= i < contents[g].len() ==> is_element_tag(
            (#[trigger] contents[g][i]).0,
        ) && element_value(contents[g][i].0, contents[g][i].1, payload_text(contents[g][i].1))
            is Ok
}

/// The values of the elements `contents`, datagroup by datagroup.
pub open spec fn contents_values(contents: Seq<Seq<(u8, Seq<u8>)>>) -> Seq<Seq<DataTypeView>> {
    Seq::new(
        contents.len(),
        |g: int|
            Seq::new(
                contents[g].len(),
                |i: int|
                    element_value(
                        contents[g][i].0,
                        contents[g][i].1,
                        payload_text(contents[g][i].1),
                    )->Ok_0,
            ),
    )
}

/// Encoding and decoding are inverse to each other: the packet that
/// [`encode_response`] makes of any datagroups of any elements decodes to the
/// values of these elements, in the shape that [`classify`] gives them, and
/// all of its bytes are consumed.
pub proof fn encoded_packet_decodes(contents: Seq<Seq<(u8, Seq<u8>)>>)
    requires
        encodable(contents),
    ensures
        encode_response(contents).well_framed(),
        encode_response(contents).readable(),
        decode(encode_response(contents).bytes()) == classify(
            contents_values(contents),
            encode_response(contents).bytes().len(),
        ),
{
    let frame = encode_response(contents);
    assert forall|g: int| 0 <= g < frame.groups.len() implies (
    #[trigger] frame.groups[g]).well_framed() && frame.groups[g].readable() by {
        let inner = frame.groups[g];
        assert forall|i: int| 0 <= i < inner.elements.len() implies (
        #[trigger] inner.elements[i]).well_framed() && inner.elements[i].readable() by {
            assert(is_element_tag(contents[g][i].0));
            lemma_encoded_element(contents[g][i].0, contents[g][i].1);
        }
        lemma_encoded_group(inner.elements);
    }
    lemma_encoded_response(frame.groups);
    well_formed_packet_decodes(frame);
    assert(frame.values() =~~= contents_values(contents));
}

} // verus!
