//! A packet that is cut short is incomplete.
//!
//! Whatever [`decode`] reads, it reads from left to right and never beyond the
//! part at hand. So a part that was read from a buffer is read in the same way
//! from every prefix of the buffer that still holds all of it, and a prefix
//! that ends inside the part is incomplete. The lemmas of this module say so
//! for every part of the grammar; [`truncated_packet_is_incomplete`] says it
//! for the packet.

use crate::decimal::{digits_end, is_digit, lemma_digits_end};
use crate::deserializer::{
    decode, element, elements, frame_header, group, groups, length_field, line, line_feed,
    ClientResultView, DecodeError, AMPERSAND, ASTERISK,
};
use vstd::prelude::*;

verus! {

/// Whether `result` holds data: it is neither an error nor the report of a
/// closed connection.
pub open spec fn holds_data(result: ClientResultView) -> bool {
    result is ResponseItem || result is SimpleResponse || result is PipelinedResponse
}

/// In a prefix of the buffer a run of digits ends where it ends in the buffer,
/// or at the end of the prefix if that comes first.
pub proof fn lemma_digits_end_cut(buf: Seq<u8>, pos: int, cut: int)
    requires
        0 <= pos <= cut <= buf.len(),
    ensures
        digits_end(buf.take(cut), pos) == if digits_end(buf, pos) <= cut {
            digits_end(buf, pos)
        } else {
            cut
        },
    decreases cut - pos,
{
    lemma_digits_end(buf, pos);
    if pos < cut && is_digit(buf[pos]) {
        lemma_digits_end_cut(buf, pos + 1, cut);
    }
}

/// A length field that was read is read again from a prefix that holds it,
/// and is incomplete in a shorter one.
pub proof fn lemma_length_field_cut(buf: Seq<u8>, pos: int, cut: int)
    requires
        0 <= pos <= cut <= buf.len(),
        length_field(buf, pos) is Ok,
    ensures
        pos < length_field(buf, pos)->Ok_0.1 <= buf.len(),
        length_field(buf.take(cut), pos) == if length_field(buf, pos)->Ok_0.1 <= cut {
            length_field(buf, pos)
        } else {
            Err(DecodeError::Incomplete)
        },
{
    lemma_digits_end(buf, pos);
    lemma_digits_end_cut(buf, pos, cut);
    let end = digits_end(buf, pos);
    if end < cut {
        assert(buf.take(cut).subrange(pos, end) =~= buf.subrange(pos, end));
    }
}

/// A line that was read is read again from a prefix that holds it, and is
/// incomplete in a shorter one.
pub proof fn lemma_line_cut(buf: Seq<u8>, pos: int, cut: int)
    requires
        0 <= pos <= cut <= buf.len(),
        line(buf, pos) is Ok,
    ensures
        pos < line(buf, pos)->Ok_0.1 <= buf.len(),
        line(buf.take(cut), pos) == if line(buf, pos)->Ok_0.1 <= cut {
            line(buf, pos)
        } else {
            Err(DecodeError::Incomplete)
        },
{
    lemma_length_field_cut(buf, pos, cut);
    let (n, start) = length_field(buf, pos)->Ok_0;
    if start + n <= cut {
        assert(buf.take(cut).subrange(start, start + n) =~= buf.subrange(start, start + n));
    }
}

/// A line feed that was read is read again from a prefix that holds it, and
/// is missing from a shorter one.
pub proof fn lemma_line_feed_cut(buf: Seq<u8>, pos: int, cut: int)
    requires
        0 <= pos,
        0 <= cut <= buf.len(),
        line_feed(buf, pos) is Ok,
    ensures
        line_feed(buf, pos)->Ok_0 == pos + 1 <= buf.len(),
        line_feed(buf.take(cut), pos) == if pos + 1 <= cut {
            line_feed(buf, pos)
        } else {
            Err(DecodeError::Incomplete)
        },
{
}

/// An envelope that was read is read again from a prefix that holds it, and
/// is incomplete in a shorter one.
pub proof fn lemma_frame_header_cut(buf: Seq<u8>, pos: int, marker: u8, cut: int)
    requires
        0 <= pos <= cut <= buf.len(),
        frame_header(buf, pos, marker) is Ok,
    ensures
        pos < frame_header(buf, pos, marker)->Ok_0.1 <= buf.len(),
        frame_header(buf.take(cut), pos, marker) == if frame_header(buf, pos, marker)->Ok_0.1
            <= cut {
            frame_header(buf, pos, marker)
        } else {
            Err(DecodeError::Incomplete)
        },
{
    if pos < cut {
        lemma_line_cut(buf, pos + 1, cut);
        let (content, end) = line(buf, pos + 1)->Ok_0;
        if end <= cut {
            lemma_line_feed_cut(buf, end, cut);
        }
    } else {
        lemma_line_cut(buf, pos + 1, buf.len() as int);
    }
}

/// An element that was read is read again from a prefix that holds it, and is
/// incomplete in a shorter one.
pub proof fn lemma_element_cut(buf: Seq<u8>, pos: int, cut: int)
    requires
        0 <= pos <= cut <= buf.len(),
        element(buf, pos) is Ok,
    ensures
        pos < element(buf, pos)->Ok_0.1 <= buf.len(),
        element(buf.take(cut), pos) == if element(buf, pos)->Ok_0.1 <= cut {
            element(buf, pos)
        } else {
            Err(DecodeError::Incomplete)
        },
{
    if pos < cut {
        lemma_line_cut(buf, pos + 1, cut);
        let (payload, end) = line(buf, pos + 1)->Ok_0;
        if end <= cut {
            lemma_line_feed_cut(buf, end, cut);
        }
    } else {
        lemma_line_cut(buf, pos + 1, buf.len() as int);
    }
}

/// Elements that were read are read again from a prefix that holds them all,
/// and are incomplete in a shorter one.
pub proof fn lemma_elements_cut(buf: Seq<u8>, pos: int, count: nat, cut: int)
    requires
        0 <= pos <= cut <= buf.len(),
        elements(buf, pos, count) is Ok,
    ensures
        pos <= elements(buf, pos, count)->Ok_0.1 <= buf.len(),
        elements(buf.take(cut), pos, count) == if elements(buf, pos, count)->Ok_0.1 <= cut {
            elements(buf, pos, count)
        } else {
            Err(DecodeError::Incomplete)
        },
    decreases count,
{
    if count > 0 {
        lemma_elements_cut(buf, pos, (count - 1) as nat, cut);
        let (values, end) = elements(buf, pos, (count - 1) as nat)->Ok_0;
        if end <= cut {
            lemma_element_cut(buf, end, cut);
        } else {
            lemma_element_cut(buf, end, buf.len() as int);
        }
    }
}

/// A datagroup that was read is read again from a prefix that holds it, and
/// is incomplete in a shorter one.
pub proof fn lemma_group_cut(buf: Seq<u8>, pos: int, cut: int)
    requires
        0 <= pos <= cut <= buf.len(),
        group(buf, pos) is Ok,
    ensures
        pos < group(buf, pos)->Ok_0.1 <= buf.len(),
        group(buf.take(cut), pos) == if group(buf, pos)->Ok_0.1 <= cut {
            group(buf, pos)
        } else {
            Err(DecodeError::Incomplete)
        },
{
    lemma_frame_header_cut(buf, pos, AMPERSAND, cut);
    let (count, start) = frame_header(buf, pos, AMPERSAND)->Ok_0;
    if start <= cut {
        lemma_elements_cut(buf, start, count, cut);
    } else {
        lemma_elements_cut(buf, start, count, buf.len() as int);
    }
}

/// Datagroups that were read are read again from a prefix that holds them
/// all, and are incomplete in a shorter one.
pub proof fn lemma_groups_cut(buf: Seq<u8>, pos: int, count: nat, cut: int)
    requires
        0 <= pos <= cut <= buf.len(),
        groups(buf, pos, count) is Ok,
    ensures
        pos <= groups(buf, pos, count)->Ok_0.1 <= buf.len(),
        groups(buf.take(cut), pos, count) == if groups(buf, pos, count)->Ok_0.1 <= cut {
            groups(buf, pos, count)
        } else {
            Err(DecodeError::Incomplete)
        },
    decreases count,
{
    if count > 0 {
        lemma_groups_cut(buf, pos, (count - 1) as nat, cut);
        let (values, end) = groups(buf, pos, (count - 1) as nat)->Ok_0;
        if end <= cut {
            lemma_group_cut(buf, end, cut);
        } else {
            lemma_group_cut(buf, end, buf.len() as int);
        }
    }
}

/// Cutting a packet short makes it incomplete: if a buffer decodes to data,
/// every proper prefix of it decodes to [`ClientResultView::Incomplete`],
/// never to an error of another kind and never to data.
pub proof fn truncated_packet_is_incomplete(buf: Seq<u8>, cut: int)
    requires
        holds_data(decode(buf)),
        0 <= cut < buf.len(),
    ensures
        decode(buf.take(cut)) == ClientResultView::Incomplete,
{
    if cut >= 6 {
        lemma_frame_header_cut(buf, 0, ASTERISK, cut);
        let (count, start) = frame_header(buf, 0, ASTERISK)->Ok_0;
        if start <= cut {
            lemma_groups_cut(buf, start, count, cut);
        }
    }
}

} // verus!
