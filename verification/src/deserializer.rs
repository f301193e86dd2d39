//! This module provides methods to deserialize an incoming response packet.
//!
//! A response packet is a metaframe followed by datagroups:
//!
//! ```text
//! response := "#" length LF "*" count LF group*
//! group    := "#" length LF "&" count LF element*
//! element  := tag length LF payload LF
//! tag      := "+" | "!" | ":"
//! ```
//!
//! Every `length` is a run of ASCII digits that gives the number of bytes of
//! the line or payload that follows it, its closing line feed not counted.
//!
//! The meaning of a buffer is given by [`decode`], a function on byte
//! sequences that is built from one function per part of the grammar. Each of
//! these takes the buffer and a position and gives either what it read and the
//! position behind it, or the reason why it could not: the buffer ends too
//! early, the framing breaks the grammar, or a payload does not hold what its
//! tag announces. [`parse`] computes [`decode`].

use crate::decimal::{
    all_digits, decimal_value, digits_end, lemma_digits_end, parse_u64, read_decimal, read_u64,
    scan_digits, Numeral, LF, PLUS,
};
use crate::respcode::RespCode;
use vstd::prelude::*;
use vstd::slice::slice_subrange;
use vstd::utf8::{decode_utf8, valid_utf8};

verus! {

/// The byte that opens the metaframe and every datagroup.
pub const HASH: u8 = 35;

/// The byte that opens the line with the number of datagroups.
pub const ASTERISK: u8 = 42;

/// The byte that opens the line with the number of elements of a datagroup.
pub const AMPERSAND: u8 = 38;

/// The tag of an element that holds a response code.
pub const BANG: u8 = 33;

/// The tag of an element that holds an unsigned integer.
pub const COLON: u8 = 58;

/// The length of the shortest packet, `#2\n*0\n`.
pub const MINIMUM_PACKET: usize = 6;

/// A response datagroup
///
/// This contains all the elements returned by a certain action. So let's say you did
/// something like `MGET x y`, then the values of x and y will be in a single datagroup.
pub type DataGroup = Vec<DataType>;

/// A data type as defined by the Terrapipe protocol
#[derive(Debug, PartialEq)]
#[non_exhaustive]
pub enum DataType {
    /// A string value
    Str(String),
    /// A response code
    RespCode(RespCode),
    /// An unsigned 64-bit integer, equivalent to an `u64`
    UnsignedInt(u64),
}

/// What a [`DataType`] holds, with the string as the sequence of its
/// characters.
pub enum DataTypeView {
    /// A string value
    Str(Seq<char>),
    /// A response code
    RespCode(RespCode),
    /// An unsigned 64-bit integer
    UnsignedInt(u64),
}

impl View for DataType {
    type V = DataTypeView;

    open spec fn view(&self) -> DataTypeView {
        match *self {
            DataType::Str(s) => DataTypeView::Str(s@),
            DataType::RespCode(code) => DataTypeView::RespCode(code),
            DataType::UnsignedInt(n) => DataTypeView::UnsignedInt(n),
        }
    }
}

impl DeepView for DataType {
    type V = DataTypeView;

    open spec fn deep_view(&self) -> DataTypeView {
        self@
    }
}

/// What parsing a response from the server comes to
///
/// The variants that hold data also hold the number of bytes of the packet, by which the
/// caller advances its buffer
#[derive(Debug, PartialEq)]
pub enum ClientResult {
    /// The response was Invalid
    InvalidResponse,
    /// The response is a valid response and has been parsed into a vector of datagroups
    PipelinedResponse(Vec<DataGroup>, usize),
    /// The response is a valid response and has been parsed into a datagroup
    SimpleResponse(DataGroup, usize),
    /// A single element in a datagroup (please note that this is a client abstraction)
    ResponseItem(DataType, usize),
    /// The response was empty, which means that the remote end closed the connection
    Empty,
    /// The response is incomplete
    Incomplete,
    /// The server returned data, but we couldn't parse it
    ParseError,
}

/// What a [`ClientResult`] holds, with sequences for vectors and strings.
pub enum ClientResultView {
    /// The framing of the packet breaks the grammar
    InvalidResponse,
    /// The datagroups of a packet that announced none or several, and the
    /// number of bytes that the packet takes
    PipelinedResponse(Seq<Seq<DataTypeView>>, nat),
    /// The one datagroup of a packet, and the number of bytes that the packet
    /// takes
    SimpleResponse(Seq<DataTypeView>, nat),
    /// The one element of the one datagroup of a packet, and the number of
    /// bytes that the packet takes
    ResponseItem(DataTypeView, nat),
    /// No bytes at all: the remote end closed the connection
    Empty,
    /// The buffer ends before the packet does
    Incomplete,
    /// The framing is sound, but a payload does not hold what its tag
    /// announces
    ParseError,
}

impl View for ClientResult {
    type V = ClientResultView;

    open spec fn view(&self) -> ClientResultView {
        match *self {
            ClientResult::InvalidResponse => ClientResultView::InvalidResponse,
            ClientResult::PipelinedResponse(groups, consumed) => {
                ClientResultView::PipelinedResponse(groups.deep_view(), consumed as nat)
            },
            ClientResult::SimpleResponse(group, consumed) => ClientResultView::SimpleResponse(
                group.deep_view(),
                consumed as nat,
            ),
            ClientResult::ResponseItem(item, consumed) => ClientResultView::ResponseItem(
                item@,
                consumed as nat,
            ),
            ClientResult::Empty => ClientResultView::Empty,
            ClientResult::Incomplete => ClientResultView::Incomplete,
            ClientResult::ParseError => ClientResultView::ParseError,
        }
    }
}

/// Why a part of a packet could not be read.
#[derive(Clone, Copy, Debug, PartialEq, Eq)]
pub enum DecodeError {
    /// The buffer ends before the part does. More bytes may complete it.
    Incomplete,
    /// The bytes break the grammar: a byte that is no digit in a length or a
    /// count, a wrong tag or marker, a byte that is no line feed where a line
    /// ends.
    InvalidResponse,
    /// The framing is sound, but the payload of a response code or of an
    /// unsigned integer is not the text of a number.
    ParseError,
}

/// The text that `String::from_utf8_lossy` makes of `bytes`: their characters
/// where they are UTF-8, with U+FFFD in place of what is not.
pub uninterp spec fn utf8_lossy(bytes: Seq<u8>) -> Seq<char>;

/// The text of a payload: the string that the bytes encode if they are UTF-8
/// throughout, and what [`utf8_lossy`] makes of them if they are not.
pub open spec fn payload_text(bytes: Seq<u8>) -> Seq<char> {
    if valid_utf8(bytes) {
        decode_utf8(bytes)
    } else {
        utf8_lossy(bytes)
    }
}

/// Whether `tag` announces one of the element types.
pub open spec fn is_element_tag(tag: u8) -> bool {
    tag == PLUS || tag == BANG || tag == COLON
}

/// The length field that starts at `pos`: a run of digits, closed by a line
/// feed. Gives the number that the digits denote and the position behind the
/// line feed.
///
/// The buffer is incomplete if it ends before the line feed, and invalid if the
/// digits are followed by any other byte.
pub open spec fn length_field(buf: Seq<u8>, pos: int) -> Result<(nat, int), DecodeError> {
    let end = digits_end(buf, pos);
    if end >= buf.len() {
        Err(DecodeError::Incomplete)
    } else if buf[end] != LF {
        Err(DecodeError::InvalidResponse)
    } else {
        Ok((decimal_value(buf.subrange(pos, end)), end + 1))
    }
}

/// The length-prefixed line that starts at `pos`: a length field, then as many
/// bytes as it announces. Gives these bytes and the position behind them,
/// where the closing line feed of the line is due.
///
/// The buffer is incomplete if it holds fewer bytes than announced.
pub open spec fn line(buf: Seq<u8>, pos: int) -> Result<(Seq<u8>, int), DecodeError> {
    match length_field(buf, pos) {
        Err(e) => Err(e),
        Ok((n, start)) => if start + n > buf.len() {
            Err(DecodeError::Incomplete)
        } else {
            Ok((buf.subrange(start, start + n), start + n))
        },
    }
}

/// The line feed that is due at `pos`. Gives the position behind it.
pub open spec fn line_feed(buf: Seq<u8>, pos: int) -> Result<int, DecodeError> {
    if pos >= buf.len() {
        Err(DecodeError::Incomplete)
    } else if buf[pos] != LF {
        Err(DecodeError::InvalidResponse)
    } else {
        Ok(pos + 1)
    }
}

/// The count that a line holds: the byte `marker`, then digits only. A line
/// of any other shape is invalid.
pub open spec fn count_line(content: Seq<u8>, marker: u8) -> Result<nat, DecodeError> {
    if content.len() == 0 || content[0] != marker || !all_digits(content.skip(1)) {
        Err(DecodeError::InvalidResponse)
    } else {
        Ok(decimal_value(content.skip(1)))
    }
}

/// The envelope that opens the packet and every datagroup: `#`, a
/// length-prefixed line, a line feed. The line holds `marker` and a count.
/// Gives the count and the position behind the line feed.
pub open spec fn frame_header(buf: Seq<u8>, pos: int, marker: u8) -> Result<
    (nat, int),
    DecodeError,
> {
    if pos >= buf.len() {
        Err(DecodeError::Incomplete)
    } else if buf[pos] != HASH {
        Err(DecodeError::InvalidResponse)
    } else {
        match line(buf, pos + 1) {
            Err(e) => Err(e),
            Ok((content, end)) => match line_feed(buf, end) {
                Err(e) => Err(e),
                Ok(next) => match count_line(content, marker) {
                    Err(e) => Err(e),
                    Ok(count) => Ok((count, next)),
                },
            },
        }
    }
}

/// The value of an element with the tag `tag`, the payload `payload` and the
/// text `text` of that payload. A string takes the text as it is. A
/// response code and an unsigned integer take the number that the payload
/// denotes, and are in error if it denotes none.
pub open spec fn element_value(tag: u8, payload: Seq<u8>, text: Seq<char>) -> Result<
    DataTypeView,
    DecodeError,
> {
    if tag == PLUS {
        Ok(DataTypeView::Str(text))
    } else if tag == BANG {
        match RespCode::of_text(payload) {
            Some(code) => Ok(DataTypeView::RespCode(code)),
            None => Err(DecodeError::ParseError),
        }
    } else if tag == COLON {
        match parse_u64(payload) {
            Some(n) => Ok(DataTypeView::UnsignedInt(n)),
            None => Err(DecodeError::ParseError),
        }
    } else {
        Err(DecodeError::InvalidResponse)
    }
}

/// The element that starts at `pos`: a tag, a length-prefixed payload, a line
/// feed. Gives its value and the position behind the line feed.
///
/// The framing is examined first and in reading order; the payload is only
/// looked into once the closing line feed was found.
pub open spec fn element(buf: Seq<u8>, pos: int) -> Result<(DataTypeView, int), DecodeError> {
    if pos >= buf.len() {
        Err(DecodeError::Incomplete)
    } else if !is_element_tag(buf[pos]) {
        Err(DecodeError::InvalidResponse)
    } else {
        match line(buf, pos + 1) {
            Err(e) => Err(e),
            Ok((payload, end)) => match line_feed(buf, end) {
                Err(e) => Err(e),
                Ok(next) => match element_value(buf[pos], payload, payload_text(payload)) {
                    Err(e) => Err(e),
                    Ok(value) => Ok((value, next)),
                },
            },
        }
    }
}

/// The first `count` elements from `pos` on, one behind the other, and the
/// position behind the last. The first element that cannot be read decides
/// the error.
pub open spec fn elements(buf: Seq<u8>, pos: int, count: nat) -> Result<
    (Seq<DataTypeView>, int),
    DecodeError,
>
    decreases count,
{
    if count == 0 {
        Ok((Seq::empty(), pos))
    } else {
        match elements(buf, pos, (count - 1) as nat) {
            Err(e) => Err(e),
            Ok((values, end)) => match element(buf, end) {
                Err(e) => Err(e),
                Ok((value, next)) => Ok((values.push(value), next)),
            },
        }
    }
}

/// The datagroup that starts at `pos`: its envelope, then as many elements as
/// the envelope announces.
pub open spec fn group(buf: Seq<u8>, pos: int) -> Result<(Seq<DataTypeView>, int), DecodeError> {
    match frame_header(buf, pos, AMPERSAND) {
        Err(e) => Err(e),
        Ok((count, start)) => elements(buf, start, count),
    }
}

/// The first `count` datagroups from `pos` on, one behind the other, and the
/// position behind the last. The first datagroup that cannot be read decides
/// the error.
pub open spec fn groups(buf: Seq<u8>, pos: int, count: nat) -> Result<
    (Seq<Seq<DataTypeView>>, int),
    DecodeError,
>
    decreases count,
{
    if count == 0 {
        Ok((Seq::empty(), pos))
    } else {
        match groups(buf, pos, (count - 1) as nat) {
            Err(e) => Err(e),
            Ok((values, end)) => match group(buf, end) {
                Err(e) => Err(e),
                Ok((value, next)) => Ok((values.push(value), next)),
            },
        }
    }
}

/// The shape in which the datagroups of a complete packet are handed out: the
/// element itself where there is one datagroup with one element, the
/// datagroup where there is one datagroup, and all of them in any other case,
/// that of no datagroup included.
pub open spec fn classify(values: Seq<Seq<DataTypeView>>, consumed: nat) -> ClientResultView {
    if values.len() == 1 {
        if values[0].len() == 1 {
            ClientResultView::ResponseItem(values[0][0], consumed)
        } else {
            ClientResultView::SimpleResponse(values[0], consumed)
        }
    } else {
        ClientResultView::PipelinedResponse(values, consumed)
    }
}

/// The result that reports the error `e`.
pub open spec fn failure(e: DecodeError) -> ClientResultView {
    match e {
        DecodeError::Incomplete => ClientResultView::Incomplete,
        DecodeError::InvalidResponse => ClientResultView::InvalidResponse,
        DecodeError::ParseError => ClientResultView::ParseError,
    }
}

/// What the buffer `buf` holds when it is read as one response packet from
/// its first byte on.
///
/// A buffer of fewer than six bytes is incomplete. Otherwise the metaframe
/// announces the number of datagroups, and that many are read. The packet has
/// to end where the buffer ends: bytes behind the last datagroup make the
/// response invalid.
pub open spec fn decode(buf: Seq<u8>) -> ClientResultView {
    if buf.len() < MINIMUM_PACKET {
        ClientResultView::Incomplete
    } else {
        match frame_header(buf, 0, ASTERISK) {
            Err(e) => failure(e),
            Ok((count, start)) => match groups(buf, start, count) {
                Err(e) => failure(e),
                Ok((values, end)) => if end != buf.len() {
                    ClientResultView::InvalidResponse
                } else {
                    classify(values, buf.len())
                },
            },
        }
    }
}

/// What is left of a count that the metaframe or a datagroup announces once it
/// is held in a `usize`: the count itself, or `usize::MAX` if it is larger.
pub open spec fn saturated(count: nat) -> usize {
    if count > usize::MAX {
        usize::MAX
    } else {
        count as usize
    }
}

/// Once an element cannot be read, asking for more elements fails in the same
/// way.
pub proof fn lemma_elements_error_persists(buf: Seq<u8>, pos: int, failed: nat, count: nat)
    requires
        failed <= count,
        elements(buf, pos, failed) is Err,
    ensures
        elements(buf, pos, count) == elements(buf, pos, failed),
    decreases count,
{
    if failed < count {
        lemma_elements_error_persists(buf, pos, failed, (count - 1) as nat);
    }
}

/// Once a datagroup cannot be read, asking for more datagroups fails in the
/// same way.
pub proof fn lemma_groups_error_persists(buf: Seq<u8>, pos: int, failed: nat, count: nat)
    requires
        failed <= count,
        groups(buf, pos, failed) is Err,
    ensures
        groups(buf, pos, count) == groups(buf, pos, failed),
    decreases count,
{
    if failed < count {
        lemma_groups_error_persists(buf, pos, failed, (count - 1) as nat);
    }
}

/// Makes a string of a payload with `String::from_utf8_lossy`, which keeps
/// what is UTF-8 and puts U+FFFD in place of every sequence that is not. For
/// bytes that are UTF-8 throughout the result is the string that they encode;
/// for any other bytes it is only named, as [`utf8_lossy`] of them.
#[verifier::external_body]
fn lossy_text(bytes: &[u8]) -> (text: String)
    ensures
        text@ == payload_text(bytes@),
        !valid_utf8(bytes@) ==> text@ == utf8_lossy(bytes@),
{
    String::from_utf8_lossy(bytes).into_owned()
}

/// Read a size line and return the following line
///
/// This reads a line that begins with the number, i.e. make sure that
/// the **`#` character is skipped**. On success the cursor stands behind the
/// line, where its closing line feed is due; on failure it does not move.
pub fn read_line_and_return_next_line<'a>(pos: &mut usize, buf: &'a [u8]) -> (r: Result<
    &'a [u8],
    DecodeError,
>)
    ensures
        match line(buf@, *old(pos) as int) {
            Ok((content, end)) => r matches Ok(l) && l@ == content && *final(pos) == end
                && *old(pos) < end <= buf@.len(),
            Err(e) => r matches Err(x) && x == e && *final(pos) == *old(pos),
        },
{
    let start = *pos;
    let end = scan_digits(buf, start);
    if end >= buf.len() {
        return Err(DecodeError::Incomplete);
    }
    if buf[end] != LF {
        return Err(DecodeError::InvalidResponse);
    }
    proof {
        lemma_digits_end(buf@, start as int);
    }
    let first = end + 1;
    match read_decimal(slice_subrange(buf, start, end)) {
        Numeral::Value(n) => {
            if n > (buf.len() - first) as u64 {
                Err(DecodeError::Incomplete)
            } else {
                let last = first + n as usize;
                *pos = last;
                Ok(slice_subrange(buf, first, last))
            }
        },
        _ => Err(DecodeError::Incomplete),
    }
}

/// Steps over the line feed that closes a line or a payload.
pub fn read_line_feed(pos: &mut usize, buf: &[u8]) -> (r: Result<(), DecodeError>)
    ensures
        match line_feed(buf@, *old(pos) as int) {
            Ok(next) => r is Ok && *final(pos) == next && next <= buf@.len(),
            Err(e) => r matches Err(x) && x == e && *final(pos) == *old(pos),
        },
{
    if *pos >= buf.len() {
        Err(DecodeError::Incomplete)
    } else if buf[*pos] != LF {
        Err(DecodeError::InvalidResponse)
    } else {
        *pos = *pos + 1;
        Ok(())
    }
}

/// Reads the count that a line holds behind its marker. A count that is too
/// large for a `usize` comes out as `usize::MAX`.
pub fn read_count(content: &[u8], marker: u8) -> (r: Result<usize, DecodeError>)
    ensures
        match count_line(content@, marker) {
            Ok(count) => r matches Ok(n) && n == saturated(count),
            Err(e) => r matches Err(x) && x == e,
        },
{
    if content.len() == 0 || content[0] != marker {
        return Err(DecodeError::InvalidResponse);
    }
    let digits = slice_subrange(content, 1, content.len());
    assert(digits@ =~= content@.skip(1));
    match read_decimal(digits) {
        Numeral::NotDecimal => Err(DecodeError::InvalidResponse),
        Numeral::Overflow => Ok(usize::MAX),
        Numeral::Value(n) => if n > usize::MAX as u64 {
            Ok(usize::MAX)
        } else {
            Ok(n as usize)
        },
    }
}

/// Reads the envelope of the packet or of a datagroup and gives the count in
/// it, as [`read_count`] does. On success the cursor stands behind the
/// envelope; on failure it does not move.
pub fn read_frame_header(pos: &mut usize, buf: &[u8], marker: u8) -> (r: Result<
    usize,
    DecodeError,
>)
    ensures
        match frame_header(buf@, *old(pos) as int, marker) {
            Ok((count, next)) => r matches Ok(n) && n == saturated(count) && *final(pos) == next
                && *old(pos) < next <= buf@.len(),
            Err(e) => r matches Err(x) && x == e && *final(pos) == *old(pos),
        },
{
    let start = *pos;
    if start >= buf.len() {
        return Err(DecodeError::Incomplete);
    }
    if buf[start] != HASH {
        return Err(DecodeError::InvalidResponse);
    }
    let mut at = start + 1;
    let content = match read_line_and_return_next_line(&mut at, buf) {
        Ok(content) => content,
        Err(e) => {
            return Err(e);
        },
    };
    match read_line_feed(&mut at, buf) {
        Ok(()) => {},
        Err(e) => {
            return Err(e);
        },
    }
    match read_count(content, marker) {
        Ok(count) => {
            *pos = at;
            Ok(count)
        },
        Err(e) => Err(e),
    }
}

/// Makes the element that the tag `tag` announces out of its payload and of
/// the text of that payload.
pub fn make_element(tag: u8, payload: &[u8], text: String) -> (r: Result<DataType, DecodeError>)
    ensures
        match element_value(tag, payload@, text@) {
            Ok(value) => r matches Ok(item) && item@ == value,
            Err(e) => r matches Err(x) && x == e,
        },
{
    if tag == PLUS {
        Ok(DataType::Str(text))
    } else if tag == BANG {
        match RespCode::from_bytes(payload) {
            Some(code) => Ok(DataType::RespCode(code)),
            None => Err(DecodeError::ParseError),
        }
    } else if tag == COLON {
        match read_u64(payload) {
            Some(n) => Ok(DataType::UnsignedInt(n)),
            None => Err(DecodeError::ParseError),
        }
    } else {
        Err(DecodeError::InvalidResponse)
    }
}

/// Reads one element. On success the cursor stands behind the element; on
/// failure it does not move.
pub fn read_element(pos: &mut usize, buf: &[u8]) -> (r: Result<DataType, DecodeError>)
    ensures
        match element(buf@, *old(pos) as int) {
            Ok((value, next)) => r matches Ok(item) && item@ == value && *final(pos) == next
                && *old(pos) < next <= buf@.len(),
            Err(e) => r matches Err(x) && x == e && *final(pos) == *old(pos),
        },
{
    let start = *pos;
    if start >= buf.len() {
        return Err(DecodeError::Incomplete);
    }
    let tag = buf[start];
    if !(tag == PLUS || tag == BANG || tag == COLON) {
        return Err(DecodeError::InvalidResponse);
    }
    let mut at = start + 1;
    let payload = match read_line_and_return_next_line(&mut at, buf) {
        Ok(payload) => payload,
        Err(e) => {
            return Err(e);
        },
    };
    match read_line_feed(&mut at, buf) {
        Ok(()) => {},
        Err(e) => {
            return Err(e);
        },
    }
    match make_element(tag, payload, lossy_text(payload)) {
        Ok(item) => {
            *pos = at;
            Ok(item)
        },
        Err(e) => Err(e),
    }
}

/// Reads `count` elements, one behind the other. On success the cursor stands
/// behind the last of them; on failure it does not move.
pub fn read_elements(pos: &mut usize, buf: &[u8], count: usize) -> (r: Result<
    DataGroup,
    DecodeError,
>)
    ensures
        match elements(buf@, *old(pos) as int, count as nat) {
            Ok((values, end)) => r matches Ok(items) && items.deep_view() == values && *final(pos)
                == end && *old(pos) + count <= end && (*old(pos) <= buf@.len() ==> end
                <= buf@.len()),
            Err(e) => r matches Err(x) && x == e && *final(pos) == *old(pos),
        },
{
    let start = *pos;
    let mut items: Vec<DataType> = Vec::new();
    assert(items.deep_view() =~= Seq::<DataTypeView>::empty());
    if start > buf.len() {
        // Nothing can be read behind the end of the buffer.
        if count == 0 {
            return Ok(items);
        }
        proof {
            assert(elements(buf@, start as int, 0) is Ok);
            assert(element(buf@, start as int) is Err);
            assert(elements(buf@, start as int, 1) is Err);
            lemma_elements_error_persists(buf@, start as int, 1, count as nat);
        }
        return Err(DecodeError::Incomplete);
    }
    let mut at = start;
    let mut done: usize = 0;
    while done < count
        invariant
            *pos == start == *old(pos),
            done <= count,
            start + done <= at <= buf@.len(),
            elements(buf@, start as int, done as nat) == Ok::<
                (Seq<DataTypeView>, int),
                DecodeError,
            >((items.deep_view(), at as int)),
        decreases count - done,
    {
        match read_element(&mut at, buf) {
            Ok(item) => {
                let ghost before = items.deep_view();
                let ghost value = item@;
                items.push(item);
                done += 1;
                assert(items.deep_view() =~= before.push(value));
            },
            Err(e) => {
                proof {
                    assert(elements(buf@, start as int, (done + 1) as nat) == Err::<
                        (Seq<DataTypeView>, int),
                        DecodeError,
                    >(e));
                    lemma_elements_error_persists(
                        buf@,
                        start as int,
                        (done + 1) as nat,
                        count as nat,
                    );
                }
                return Err(e);
            },
        }
    }
    *pos = at;
    Ok(items)
}

/// Reads one datagroup: its envelope and the elements that the envelope
/// announces. On success the cursor stands behind the datagroup; on failure
/// it does not move.
pub fn read_group(pos: &mut usize, buf: &[u8]) -> (r: Result<DataGroup, DecodeError>)
    ensures
        match group(buf@, *old(pos) as int) {
            Ok((values, next)) => r matches Ok(items) && items.deep_view() == values && *final(pos)
                == next && *old(pos) < next <= buf@.len(),
            Err(e) => r matches Err(x) && x == e && *final(pos) == *old(pos),
        },
{
    let mut at = *pos;
    let count = match read_frame_header(&mut at, buf, AMPERSAND) {
        Ok(count) => count,
        Err(e) => {
            return Err(e);
        },
    };
    let ghost announced = frame_header(buf@, *pos as int, AMPERSAND)->Ok_0.0;
    let ghost start = at as int;
    assert(buf@.len() == buf.len());
    match read_elements(&mut at, buf, count) {
        Ok(items) => {
            // Each element takes a byte at least, so a count that was cut down
            // to `usize::MAX` cannot have been met.
            assert(announced == count);
            *pos = at;
            Ok(items)
        },
        Err(e) => {
            proof {
                lemma_elements_error_persists(buf@, start, count as nat, announced);
            }
            Err(e)
        },
    }
}

/// Reads `count` datagroups, one behind the other. On success the cursor
/// stands behind the last of them; on failure it does not move.
pub fn read_groups(pos: &mut usize, buf: &[u8], count: usize) -> (r: Result<
    Vec<DataGroup>,
    DecodeError,
>)
    ensures
        match groups(buf@, *old(pos) as int, count as nat) {
            Ok((values, end)) => r matches Ok(items) && items.deep_view() == values && *final(pos)
                == end && *old(pos) + count <= end && (*old(pos) <= buf@.len() ==> end
                <= buf@.len()),
            Err(e) => r matches Err(x) && x == e && *final(pos) == *old(pos),
        },
{
    let start = *pos;
    let mut items: Vec<DataGroup> = Vec::new();
    assert(items.deep_view() =~= Seq::<Seq<DataTypeView>>::empty());
    if start > buf.len() {
        // Nothing can be read behind the end of the buffer.
        if count == 0 {
            return Ok(items);
        }
        proof {
            assert(groups(buf@, start as int, 0) is Ok);
            assert(group(buf@, start as int) is Err);
            assert(groups(buf@, start as int, 1) is Err);
            lemma_groups_error_persists(buf@, start as int, 1, count as nat);
        }
        return Err(DecodeError::Incomplete);
    }
    let mut at = start;
    let mut done: usize = 0;
    while done < count
        invariant
            *pos == start == *old(pos),
            done <= count,
            start + done <= at <= buf@.len(),
            groups(buf@, start as int, done as nat) == Ok::<
                (Seq<Seq<DataTypeView>>, int),
                DecodeError,
            >((items.deep_view(), at as int)),
        decreases count - done,
    {
        match read_group(&mut at, buf) {
            Ok(item) => {
                let ghost before = items.deep_view();
                let ghost value = item.deep_view();
                items.push(item);
                done += 1;
                assert(items.deep_view() =~= before.push(value));
            },
            Err(e) => {
                proof {
                    assert(groups(buf@, start as int, (done + 1) as nat) == Err::<
                        (Seq<Seq<DataTypeView>>, int),
                        DecodeError,
                    >(e));
                    lemma_groups_error_persists(
                        buf@,
                        start as int,
                        (done + 1) as nat,
                        count as nat,
                    );
                }
                return Err(e);
            },
        }
    }
    *pos = at;
    Ok(items)
}

/// Hands out the datagroups of a complete packet of `consumed` bytes in the
/// shape that fits their number: the element of a single datagroup with a
/// single element, the single datagroup, or all datagroups.
pub fn respond(groups: Vec<DataGroup>, consumed: usize) -> (r: ClientResult)
    ensures
        r@ == classify(groups.deep_view(), consumed as nat),
{
    let mut groups = groups;
    if groups.len() == 1 {
        let mut group = groups.swap_remove(0);
        if group.len() == 1 {
            ClientResult::ResponseItem(group.swap_remove(0), consumed)
        } else {
            ClientResult::SimpleResponse(group, consumed)
        }
    } else {
        ClientResult::PipelinedResponse(groups, consumed)
    }
}

/// Reports a part that could not be read as the result of the whole packet.
pub fn report(e: DecodeError) -> (r: ClientResult)
    ensures
        r@ == failure(e),
{
    match e {
        DecodeError::Incomplete => ClientResult::Incomplete,
        DecodeError::InvalidResponse => ClientResult::InvalidResponse,
        DecodeError::ParseError => ClientResult::ParseError,
    }
}

/// Parse a response packet
///
/// The buffer is read as one packet from its first byte on, and the result is
/// [`decode`] of its bytes. A result that holds data also holds the length of
/// the buffer, every byte of which belongs to the packet. The result is never
/// [`ClientResult::Empty`]: a caller that reads nothing from the connection
/// reports that itself.
pub fn parse(buf: &[u8]) -> (r: ClientResult)
    ensures
        r@ == decode(buf@),
        r !is Empty,
        match r {
            ClientResult::PipelinedResponse(_, consumed) => consumed == buf@.len(),
            ClientResult::SimpleResponse(_, consumed) => consumed == buf@.len(),
            ClientResult::ResponseItem(_, consumed) => consumed == buf@.len(),
            _ => true,
        },
{
    if buf.len() < MINIMUM_PACKET {
        // A packet that has less than 6 characters? Nonsense!
        return ClientResult::Incomplete;
    }
    let mut pos: usize = 0;
    let count = match read_frame_header(&mut pos, buf, ASTERISK) {
        Ok(count) => count,
        Err(e) => {
            return report(e);
        },
    };
    let ghost announced = frame_header(buf@, 0, ASTERISK)->Ok_0.0;
    let ghost start = pos as int;
    let groups = match read_groups(&mut pos, buf, count) {
        Ok(groups) => groups,
        Err(e) => {
            proof {
                lemma_groups_error_persists(buf@, start, count as nat, announced);
            }
            return report(e);
        },
    };
    // Each datagroup takes a byte at least, so a count that was cut down to
    // `usize::MAX` cannot have been met.
    assert(announced == count);
    if pos != buf.len() {
        // Bytes behind the last datagroup: the stream is out of step.
        return ClientResult::InvalidResponse;
    }
    respond(groups, pos)
}

} // verus!
