//! The format of a body, seen from the side of whoever writes one.
//!
//! Nothing here runs: the module says what it means to write segments into a
//! body and proves that reading such a body gives the segments back.

use crate::segment::SegmentView;
use crate::tokenizer::{
    decoded, has_no_quote, hold_no_quote, lemma_next_quote, next_quote, paired, quote_free,
    scanned, segments_of, tokens_from, QUOTE,
};
use vstd::prelude::*;
use vstd::utf8::*;

verus! {

/// A field as it stands in a body: between two quotes.
pub open spec fn quoted(field: Seq<u8>) -> Seq<u8> {
    seq![QUOTE] + field + seq![QUOTE]
}

/// The fields written one after the other.
pub open spec fn written(fields: Seq<Seq<u8>>) -> Seq<u8>
    decreases fields.len(),
{
    if fields.len() == 0 {
        Seq::empty()
    } else {
        quoted(fields.first()) + written(fields.drop_first())
    }
}

/// The fields that stand for a list of segments: for each segment its origin,
/// then its destination, as UTF-8.
pub open spec fn fields_of(segments: Seq<SegmentView>) -> Seq<Seq<u8>> {
    Seq::new(
        2 * segments.len(),
        |k: int|
            if k % 2 == 0 {
                encode_utf8(segments[k / 2].origin)
            } else {
                encode_utf8(segments[k / 2].destination)
            },
    )
}

/// A body that holds the segments: their fields, and one more byte at the end.
pub open spec fn body_of(segments: Seq<SegmentView>, last: u8) -> Seq<u8> {
    written(fields_of(segments)) + seq![last]
}

/// Where the first quote from `from` on stands, `next_quote` finds it.
proof fn lemma_next_quote_at(bytes: Seq<u8>, from: int, at: int)
    requires
        0 <= from <= at <= bytes.len(),
        forall|k: int| from <= k < at ==> bytes[k] != QUOTE,
        at < bytes.len() ==> bytes[at] == QUOTE,
    ensures
        next_quote(bytes, from) == at,
    decreases at - from,
{
    if from < at {
        lemma_next_quote_at(bytes, from + 1, at);
    }
}

/// Looking for a quote in the rest of the bytes is looking for it in the whole.
proof fn lemma_next_quote_shift(bytes: Seq<u8>, offset: int, from: int)
    requires
        0 <= offset,
        0 <= from,
        offset + from <= bytes.len(),
    ensures
        next_quote(bytes, offset + from) == offset + next_quote(
            bytes.subrange(offset, bytes.len() as int),
            from,
        ),
    decreases bytes.len() - offset - from,
{
    let rest = bytes.subrange(offset, bytes.len() as int);
    if offset + from < bytes.len() {
        assert(rest[from] == bytes[offset + from]);
        if bytes[offset + from] != QUOTE {
            lemma_next_quote_shift(bytes, offset, from + 1);
        }
    }
}

/// The fields found from a position on are the fields of the rest of the bytes.
proof fn lemma_tokens_shift(bytes: Seq<u8>, offset: int, from: int)
    requires
        0 <= offset,
        0 <= from,
        offset + from <= bytes.len(),
    ensures
        tokens_from(bytes, offset + from) == tokens_from(
            bytes.subrange(offset, bytes.len() as int),
            from,
        ),
    decreases bytes.len() - offset - from,
{
    let rest = bytes.subrange(offset, bytes.len() as int);
    let open = next_quote(rest, from);
    let close = next_quote(rest, open + 1);
    lemma_next_quote_shift(bytes, offset, from);
    lemma_next_quote(rest, from);
    if open < rest.len() {
        lemma_next_quote_shift(bytes, offset, open + 1);
        lemma_next_quote(rest, open + 1);
        if close < rest.len() {
            lemma_tokens_shift(bytes, offset, close + 1);
            assert(bytes.subrange(offset + open + 1, offset + close) =~= rest.subrange(
                open + 1,
                close,
            ));
        }
    }
}

/// Reading what was written gives the fields back, whatever follows them, as
/// long as neither a field nor what follows holds a quote.
pub proof fn lemma_tokens_of_written(fields: Seq<Seq<u8>>, rest: Seq<u8>)
    requires
        forall|k: int| 0 <= k < fields.len() ==> quote_free(#[trigger] fields[k]),
        quote_free(rest),
    ensures
        tokens_from(written(fields) + rest, 0) == fields,
    decreases fields.len(),
{
    let bytes = written(fields) + rest;
    if fields.len() == 0 {
        assert(bytes =~= rest);
        lemma_next_quote_at(bytes, 0, bytes.len() as int);
        assert(tokens_from(bytes, 0) =~= fields);
    } else {
        let first = fields.first();
        let others = fields.drop_first();
        let after = written(others) + rest;
        let close = first.len() as int + 1;
        assert(quote_free(first));
        assert(bytes =~= quoted(first) + after);
        lemma_next_quote_at(bytes, 0, 0);
        lemma_next_quote_at(bytes, 1, close);
        assert(bytes.subrange(1, close) =~= first);
        lemma_tokens_shift(bytes, close + 1, 0);
        assert(bytes.subrange(close + 1, bytes.len() as int) =~= after);
        assert forall|k: int| 0 <= k < others.len() implies quote_free(#[trigger] others[k]) by {
            assert(others[k] == fields[k + 1]);
        }
        lemma_tokens_of_written(others, rest);
        assert(tokens_from(bytes, 0) =~= seq![first] + others);
        assert(seq![first] + others =~= fields);
    }
}

/// No byte of the UTF-8 form of a character other than the quote is a quote.
proof fn lemma_encoded_scalar_quote_free(scalar: u32)
    requires
        is_scalar(scalar),
        scalar != 0x27,
    ensures
        quote_free(encode_scalar(scalar)),
{
    assert(has_width_1_encoding(scalar) ==> leading_byte_width_1(scalar) != 0x27) by (bit_vector)
        requires
            scalar != 0x27,
    ;
    assert(leading_byte_width_2(scalar) != 0x27) by (bit_vector);
    assert(leading_byte_width_3(scalar) != 0x27) by (bit_vector);
    assert(leading_byte_width_4(scalar) != 0x27) by (bit_vector);
    assert(last_continuation_byte(scalar) != 0x27) by (bit_vector);
    assert(second_last_continuation_byte(scalar) != 0x27) by (bit_vector);
    assert(third_last_continuation_byte(scalar) != 0x27) by (bit_vector);
}

/// Text without a quote has no quote among its bytes either.
pub proof fn lemma_encoded_quote_free(text: Seq<char>)
    requires
        has_no_quote(text),
    ensures
        quote_free(encode_utf8(text)),
    decreases text.len(),
{
    if text.len() > 0 {
        let head = encode_scalar(text[0] as u32);
        let tail = encode_utf8(text.drop_first());
        char_is_scalar(text[0]);
        assert(text[0] as u32 != 0x27) by {
            if text[0] as u32 == 0x27 {
                char_u32_cast(text[0], 0x27u32);
                char_u32_cast('\'', 0x27u32);
            }
        }
        lemma_encoded_scalar_quote_free(text[0] as u32);
        assert forall|k: int| 0 <= k < text.drop_first().len() implies text.drop_first()[k]
            != '\'' by {
            assert(text.drop_first()[k] == text[k + 1]);
        }
        lemma_encoded_quote_free(text.drop_first());
        assert forall|k: int| 0 <= k < (head + tail).len() implies (head + tail)[k] != QUOTE by {
            if k < head.len() {
                assert((head + tail)[k] == head[k]);
            } else {
                assert((head + tail)[k] == tail[k - head.len()]);
            }
        }
    }
}

/// Fields that are well-formed text make well-formed text when written.
proof fn lemma_written_is_text(fields: Seq<Seq<u8>>)
    requires
        forall|k: int| 0 <= k < fields.len() ==> valid_utf8(#[trigger] fields[k]),
    ensures
        valid_utf8(written(fields)),
    decreases fields.len(),
{
    if fields.len() > 0 {
        let first = fields.first();
        let others = fields.drop_first();
        assert forall|k: int| 0 <= k < others.len() implies valid_utf8(#[trigger] others[k]) by {
            assert(others[k] == fields[k + 1]);
        }
        lemma_written_is_text(others);
        lemma_one_ascii_byte_is_text(QUOTE);
        valid_utf8_concat(seq![QUOTE], first);
        valid_utf8_concat(seq![QUOTE] + first, seq![QUOTE]);
        valid_utf8_concat(quoted(first), written(others));
    }
}

/// One ASCII byte is well-formed text.
proof fn lemma_one_ascii_byte_is_text(byte: u8)
    requires
        byte < 0x80,
    ensures
        valid_utf8(seq![byte]),
{
    reveal_with_fuel(valid_utf8, 2);
    let one = seq![byte];
    assert(one[0] == byte);
    assert(pop_first_scalar(one) =~= Seq::<u8>::empty());
}

/// Writing segments into a body and reading the body gives the segments back,
/// in their order, whatever the last byte of the body is. All that is asked of
/// the endpoints is that none holds a quote. The body is well-formed text, and
/// so is not refused, exactly when its last byte is an ASCII byte.
pub proof fn lemma_round_trip(segments: Seq<SegmentView>, last: u8)
    requires
        hold_no_quote(segments),
    ensures
        segments_of(body_of(segments, last)) == segments,
        valid_utf8(body_of(segments, last)) <==> last < 0x80,
{
    broadcast use {encode_utf8_valid_utf8, encode_utf8_decode_utf8};

    let fields = fields_of(segments);
    let body = body_of(segments, last);
    assert(scanned(body) =~= written(fields));
    assert forall|k: int| 0 <= k < fields.len() implies quote_free(#[trigger] fields[k]) by {
        assert(has_no_quote(segments[k / 2].origin));
        lemma_encoded_quote_free(segments[k / 2].origin);
        lemma_encoded_quote_free(segments[k / 2].destination);
    }
    lemma_tokens_of_written(fields, Seq::empty());
    assert(written(fields) + Seq::<u8>::empty() =~= written(fields));
    assert(paired(decoded(fields)) =~= segments);
    lemma_written_is_text(fields);
    if last < 0x80 {
        lemma_one_ascii_byte_is_text(last);
        valid_utf8_concat(written(fields), seq![last]);
    } else {
        let end = written(fields).len() as int;
        assert(body.subrange(0, end) =~= written(fields));
        assert(body.subrange(end, body.len() as int) =~= seq![last]);
        assert(!valid_first_scalar(seq![last]));
        partial_valid_partial_invalid_utf8(body, end);
    }
}

} // verus!
