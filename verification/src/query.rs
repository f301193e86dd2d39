//! Queries: the packets that the client sends.
//!
//! A query holds its arguments in the form in which they go out, one element
//! per argument: `+`, the number of bytes of the argument, a line feed, the
//! argument, a line feed.

use crate::decimal::{append_decimal, decimal_digits, LF, PLUS};
use crate::deserializer::{element, payload_text, DataTypeView, DecodeError};
use crate::frames::{holds, lemma_encoded_element, ElementFrame};
use crate::wellformed::lemma_element_read;
use vstd::prelude::*;
use vstd::string::StringSliceAdditionalSpecFns;
use vstd::utf8::{encode_utf8, encode_utf8_decode_utf8, encode_utf8_valid_utf8};

verus! {

/// The byte that opens the line with the number of arguments of a query.
pub const UNDERSCORE: u8 = 95;

/// The element that carries the argument `bytes` in a query.
pub open spec fn argument(bytes: Seq<u8>) -> Seq<u8> {
    seq![PLUS] + decimal_digits(bytes.len()) + seq![LF] + bytes + seq![LF]
}

/// The packet of a single query with `size_count` arguments whose elements
/// are `data`: the metaframe `*1`, the line with the number of arguments, the
/// elements.
pub open spec fn query_packet(size_count: nat, data: Seq<u8>) -> Seq<u8> {
    seq![42u8, 49u8, LF] + seq![UNDERSCORE] + decimal_digits(size_count) + seq![LF] + data
}

#[derive(Debug, PartialEq)]
/// This struct represents a single simple query as defined by the Terrapipe protocol
pub struct Query {
    size_count: usize,
    data: Vec<u8>,
}

/// What a [`Query`] holds.
pub struct QueryView {
    /// The number of arguments
    pub size_count: nat,
    /// The elements of the arguments, one behind the other
    pub data: Seq<u8>,
}

impl View for Query {
    type V = QueryView;

    closed spec fn view(&self) -> QueryView {
        QueryView { size_count: self.size_count as nat, data: self.data@ }
    }
}

/// Appends a copy of `bytes` to `out`.
pub fn append_bytes(out: &mut Vec<u8>, bytes: &[u8])
    ensures
        final(out)@ == old(out)@ + bytes@,
{
    let mut i: usize = 0;
    while i < bytes.len()
        invariant
            i <= bytes@.len(),
            out@ == old(out)@ + bytes@.take(i as int),
        decreases bytes@.len() - i,
    {
        out.push(bytes[i]);
        i += 1;
        assert(bytes@.take(i as int) =~= bytes@.take(i - 1).push(bytes@[i - 1]));
    }
    assert(bytes@.take(i as int) =~= bytes@);
}

impl Query {
    /// Every argument takes more than one byte of the holding buffer.
    #[verifier::type_invariant]
    spec fn counted(self) -> bool {
        self.size_count <= self.data@.len()
    }

    /// Create an empty query
    pub fn new() -> (query: Self)
        ensures
            query@ == (QueryView { size_count: 0, data: Seq::empty() }),
    {
        Query { size_count: 0, data: Vec::new() }
    }

    /// Add an argument to a query
    ///
    /// The argument must not be empty.
    pub fn arg(&mut self, arg: &str) -> (query: &mut Self)
        requires
            arg@.len() > 0,
        ensures
            query@ == (QueryView {
                size_count: old(self)@.size_count + 1,
                data: old(self)@.data + argument(arg.spec_bytes()),
            }),
            *final(self) == *final(query),
    {
        // The holding buffer is taken out of the query while it grows.
        let mut held = Query::new();
        core::mem::swap(self, &mut held);
        proof {
            use_type_invariant(&held);
        }
        let Query { size_count, mut data } = held;
        let ghost before = data@;
        let bytes = arg.as_bytes();
        // A data element will look like:
        // `+<bytes_in_next_line>\n<data>`
        data.push(PLUS);
        append_decimal(&mut data, bytes.len());
        // add the LF char
        data.push(LF);
        // Add the data itself, which is `arg`
        append_bytes(&mut data, bytes);
        data.push(LF);  // add the LF char
        assert(data@ =~= before + argument(arg.spec_bytes()));
        assert(size_count < data@.len() == data.len());
        *self = Query { size_count: size_count + 1, data };
        self
    }

    /// Number of items in the datagroup
    pub fn __len(&self) -> (n: usize)
        ensures
            n == self@.size_count,
    {
        self.size_count
    }

    /// The elements of the arguments that were added so far
    pub fn get_holding_buffer(&self) -> (data: &[u8])
        ensures
            data@ == self@.data,
    {
        self.data.as_slice()
    }

    /// The packet that sends this query: what goes to the stream, byte for
    /// byte.
    pub fn packet(&self) -> (bytes: Vec<u8>)
        ensures
            bytes@ == query_packet(self@.size_count, self@.data),
    {
        let mut bytes: Vec<u8> = Vec::new();
        // Write the metaframe
        bytes.push(42);
        bytes.push(49);
        bytes.push(LF);
        // Add the dataframe
        bytes.push(UNDERSCORE);
        append_decimal(&mut bytes, self.size_count);
        bytes.push(LF);
        append_bytes(&mut bytes, self.data.as_slice());
        assert(bytes@ =~= query_packet(self@.size_count, self@.data));
        bytes
    }

    /// Clear out the holding buffer for running other commands
    pub fn clear(&mut self)
        ensures
            final(self)@ == (QueryView { size_count: 0, data: Seq::empty() }),
    {
        *self = Query::new();
    }
}

/// The decoder reads an argument as a string: where a buffer holds the
/// element of the argument `bytes`, the element that is read there is the
/// string with the text of `bytes`, and the position behind it is the end of
/// the element.
pub proof fn argument_reads_as_string(buf: Seq<u8>, pos: int, bytes: Seq<u8>)
    requires
        holds(buf, pos, argument(bytes)),
    ensures
        element(buf, pos) == Ok::<(DataTypeView, int), DecodeError>(
            (DataTypeView::Str(payload_text(bytes)), pos + argument(bytes).len()),
        ),
{
    let frame = ElementFrame::encode(PLUS, bytes);
    lemma_encoded_element(PLUS, bytes);
    assert(frame.bytes() =~= argument(bytes));
    lemma_element_read(buf, pos, frame);
}

/// The decoder reads the argument that [`Query::arg`] makes of a string as
/// that string.
pub proof fn string_argument_reads_back(buf: Seq<u8>, pos: int, text: Seq<char>)
    requires
        holds(buf, pos, argument(encode_utf8(text))),
    ensures
        element(buf, pos) == Ok::<(DataTypeView, int), DecodeError>(
            (DataTypeView::Str(text), pos + argument(encode_utf8(text)).len()),
        ),
{
    encode_utf8_valid_utf8(text);
    encode_utf8_decode_utf8(text);
    argument_reads_as_string(buf, pos, encode_utf8(text));
}

} // verus!
