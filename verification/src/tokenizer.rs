//! Reading segments out of a request body.
//!
//! The body is text in which every field stands between two single quotes.
//! Whatever stands outside the quotes is skipped. Fields are taken two at a
//! time: the first of a pair is an origin, the second the destination that
//! goes with it.

use crate::segment::{Segment, SegmentView};
use vstd::prelude::*;
use vstd::slice::slice_subrange;
use vstd::string::StringSliceAdditionalSpecFns;
use vstd::utf8::*;

verus! {

/// The single quote, the only delimiter of the format. There is no escape for
/// it, so no field can hold one.
pub const QUOTE: u8 = 0x27;

/// Why a body could not be read.
#[derive(Debug, Clone, Copy, PartialEq, Eq, Structural)]
pub enum TokenizeError {
    /// The body is not well-formed UTF-8 text.
    MalformedInput,
}

/// The bytes hold no quote.
pub open spec fn quote_free(bytes: Seq<u8>) -> bool {
    forall|k: int| 0 <= k < bytes.len() ==> bytes[k] != QUOTE
}

/// The text holds no quote.
pub open spec fn has_no_quote(text: Seq<char>) -> bool {
    forall|k: int| 0 <= k < text.len() ==> text[k] != '\''
}

/// No endpoint of any of the segments holds a quote.
pub open spec fn hold_no_quote(segments: Seq<SegmentView>) -> bool {
    forall|k: int|
        0 <= k < segments.len() ==> has_no_quote(#[trigger] segments[k].origin) && has_no_quote(
            segments[k].destination,
        )
}

/// The part of a body that is looked at: all of it but its last byte.
pub open spec fn scanned(body: Seq<u8>) -> Seq<u8> {
    if body.len() == 0 {
        body
    } else {
        body.drop_last()
    }
}

/// The position of the first quote at or after `from`, or the length of
/// `bytes` where there is none.
pub open spec fn next_quote(bytes: Seq<u8>, from: int) -> int
    decreases bytes.len() - from,
{
    if from >= bytes.len() {
        bytes.len() as int
    } else if from >= 0 && bytes[from] == QUOTE {
        from
    } else {
        next_quote(bytes, from + 1)
    }
}

/// The fields found at or after `from`, in the order in which they stand: each
/// is what lies between a quote and the quote that follows it. A quote that
/// closes one field never opens the next, and a last quote without a partner
/// opens nothing.
pub open spec fn tokens_from(bytes: Seq<u8>, from: int) -> Seq<Seq<u8>>
    decreases bytes.len() - from,
{
    let open = next_quote(bytes, from);
    let close = next_quote(bytes, open + 1);
    if from <= open < close < bytes.len() {
        seq![bytes.subrange(open + 1, close)] + tokens_from(bytes, close + 1)
    } else {
        Seq::empty()
    }
}

/// Each field read as text.
pub open spec fn decoded(tokens: Seq<Seq<u8>>) -> Seq<Seq<char>> {
    tokens.map_values(|token: Seq<u8>| decode_utf8(token))
}

/// The fields taken two at a time. A last field without a partner is left out.
pub open spec fn paired(tokens: Seq<Seq<char>>) -> Seq<SegmentView> {
    Seq::new(
        (tokens.len() / 2) as nat,
        |k: int| SegmentView { origin: tokens[2 * k], destination: tokens[2 * k + 1] },
    )
}

/// The segments that a body of well-formed text holds.
pub open spec fn segments_of(body: Seq<u8>) -> Seq<SegmentView> {
    paired(decoded(tokens_from(scanned(body), 0)))
}

/// `next_quote` finds a quote, the first one from `from` on, or runs to the end.
pub proof fn lemma_next_quote(bytes: Seq<u8>, from: int)
    requires
        0 <= from <= bytes.len(),
    ensures
        from <= next_quote(bytes, from) <= bytes.len(),
        next_quote(bytes, from) < bytes.len() ==> bytes[next_quote(bytes, from)] == QUOTE,
        forall|k: int| from <= k < next_quote(bytes, from) ==> bytes[k] != QUOTE,
    decreases bytes.len() - from,
{
    if from < bytes.len() && bytes[from] != QUOTE {
        lemma_next_quote(bytes, from + 1);
    }
}

/// No field holds a quote.
pub proof fn lemma_tokens_hold_no_quote(bytes: Seq<u8>, from: int)
    requires
        0 <= from <= bytes.len(),
    ensures
        forall|k: int|
            0 <= k < tokens_from(bytes, from).len() ==> quote_free(
                #[trigger] tokens_from(bytes, from)[k],
            ),
    decreases bytes.len() - from,
{
    let open = next_quote(bytes, from);
    let close = next_quote(bytes, open + 1);
    lemma_next_quote(bytes, from);
    if open < close < bytes.len() {
        lemma_next_quote(bytes, open + 1);
        lemma_tokens_hold_no_quote(bytes, close + 1);
        let first = bytes.subrange(open + 1, close);
        let rest = tokens_from(bytes, close + 1);
        assert forall|at: int| 0 <= at < first.len() implies first[at] != QUOTE by {
            assert(first[at] == bytes[open + 1 + at]);
        }
        assert forall|k: int| 0 <= k < tokens_from(bytes, from).len() implies quote_free(
            #[trigger] tokens_from(bytes, from)[k],
        ) by {
            if k > 0 {
                assert(tokens_from(bytes, from)[k] == rest[k - 1]);
            }
        }
    }
}

/// Well-formed bytes without a quote are text without a quote.
pub proof fn lemma_decoded_quote_free(bytes: Seq<u8>)
    requires
        valid_utf8(bytes),
        quote_free(bytes),
    ensures
        has_no_quote(decode_utf8(bytes)),
    decreases bytes.len(),
{
    if bytes.len() > 0 {
        let text = decode_utf8(bytes);
        let rest = pop_first_scalar(bytes);
        assert forall|k: int| 0 <= k < rest.len() implies rest[k] != QUOTE by {
            assert(rest[k] == bytes[length_of_first_scalar(bytes) + k]);
        }
        lemma_decoded_quote_free(rest);
        assert(text[0] != '\'') by {
            if text[0] == '\'' {
                decode_utf8_first_scalar(bytes);
                assert('\'' as u32 == 0x27);
                assert(leading_byte_width_1(0x27) == 0x27) by (bit_vector);
                assert(take_first_scalar(bytes)[0] == bytes[0]);
            }
        }
        assert forall|k: int| 0 <= k < text.len() implies text[k] != '\'' by {
            if k > 0 {
                assert(text[k] == decode_utf8(rest)[k - 1]);
            }
        }
    }
}

/// In well-formed text, what lies between two quotes is well-formed text.
pub proof fn lemma_text_between_quotes(body: Seq<u8>, open: int, close: int)
    requires
        valid_utf8(body),
        0 <= open < close < body.len(),
        body[open] == QUOTE,
        body[close] == QUOTE,
    ensures
        valid_utf8(body.subrange(open + 1, close)),
{
    let head = body.subrange(0, close);
    is_char_boundary_iff_is_leading_byte(body, close);
    valid_utf8_split(body, close);
    is_char_boundary_iff_is_leading_byte(head, open);
    valid_utf8_split(head, open);
    let quoted = head.subrange(open, close);
    assert(quoted[0] == QUOTE);
    assert(pop_first_scalar(quoted) =~= body.subrange(open + 1, close));
}

/// Every field of a body of well-formed text is well-formed text itself, so
/// that reading it as text loses nothing.
pub proof fn lemma_tokens_are_text(body: Seq<u8>, from: int)
    requires
        valid_utf8(body),
        0 <= from <= scanned(body).len(),
    ensures
        forall|k: int|
            0 <= k < tokens_from(scanned(body), from).len() ==> valid_utf8(
                #[trigger] tokens_from(scanned(body), from)[k],
            ),
    decreases scanned(body).len() - from,
{
    let bytes = scanned(body);
    let open = next_quote(bytes, from);
    let close = next_quote(bytes, open + 1);
    lemma_next_quote(bytes, from);
    if open < close < bytes.len() {
        lemma_next_quote(bytes, open + 1);
        lemma_tokens_are_text(body, close + 1);
        lemma_text_between_quotes(body, open, close);
        let first = bytes.subrange(open + 1, close);
        let rest = tokens_from(bytes, close + 1);
        assert(first =~= body.subrange(open + 1, close));
        assert forall|k: int| 0 <= k < tokens_from(bytes, from).len() implies valid_utf8(
            #[trigger] tokens_from(bytes, from)[k],
        ) by {
            if k > 0 {
                assert(tokens_from(bytes, from)[k] == rest[k - 1]);
            }
        }
    }
}

/// No endpoint that is read out of a body of well-formed text holds a quote.
pub proof fn lemma_segments_hold_no_quote(body: Seq<u8>)
    requires
        valid_utf8(body),
    ensures
        hold_no_quote(segments_of(body)),
{
    let tokens = tokens_from(scanned(body), 0);
    let read = segments_of(body);
    lemma_tokens_hold_no_quote(scanned(body), 0);
    lemma_tokens_are_text(body, 0);
    assert forall|k: int| 0 <= k < read.len() implies has_no_quote(#[trigger] read[k].origin)
        && has_no_quote(read[k].destination) by {
        assert(quote_free(tokens[2 * k]) && valid_utf8(tokens[2 * k]));
        assert(quote_free(tokens[2 * k + 1]) && valid_utf8(tokens[2 * k + 1]));
        lemma_decoded_quote_free(tokens[2 * k]);
        lemma_decoded_quote_free(tokens[2 * k + 1]);
    }
}

/// Finds the first quote at or after `from`. Where there is none, the length
/// of `bytes` is returned.
pub fn find_quote(bytes: &[u8], from: usize) -> (at: usize)
    ensures
        at == next_quote(bytes@, from as int),
        at <= bytes@.len(),
        from <= bytes@.len() ==> from <= at,
{
    let mut at: usize = from;
    while at < bytes.len() && bytes[at] != QUOTE
        invariant
            from <= at,
            next_quote(bytes@, from as int) == next_quote(bytes@, at as int),
        decreases bytes@.len() - at,
    {
        at += 1;
    }
    if at > bytes.len() {
        bytes.len()
    } else {
        at
    }
}

/// Copies out the text between the quote at `open` and the quote at `close`.
pub fn text_between(text: &str, open: usize, close: usize) -> (token: String)
    requires
        open < close < text.spec_bytes().len(),
        text.spec_bytes()[open as int] == QUOTE,
        text.spec_bytes()[close as int] == QUOTE,
    ensures
        token@ == decode_utf8(text.spec_bytes().subrange(open + 1, close as int)),
{
    broadcast use {encode_utf8_valid_utf8, encode_utf8_decode_utf8};

    let ghost bytes = text.spec_bytes();
    proof {
        is_char_boundary_iff_is_leading_byte(bytes, open as int);
    }
    let (_, tail) = text.split_at(open);
    proof {
        let tail_bytes = tail.spec_bytes();
        assert(tail_bytes[0] == QUOTE);
        reveal_with_fuel(is_char_boundary, 2);
        reveal_with_fuel(valid_utf8, 2);
        assert(is_char_boundary(tail_bytes, 1));
    }
    let (_, rest) = tail.split_at(1);
    proof {
        let rest_bytes = rest.spec_bytes();
        assert(rest_bytes[close - open - 1] == QUOTE);
        is_char_boundary_iff_is_leading_byte(rest_bytes, close - open - 1);
    }
    let (token, _) = rest.split_at(close - open - 1);
    assert(token.spec_bytes() =~= bytes.subrange(open + 1, close as int));
    token.to_owned()
}

/// Reads the segments out of a request body.
///
/// A body that is not well-formed UTF-8 is refused. Any other body is read from
/// left to right, up to but without its last byte.
pub fn tokenize(body: &[u8]) -> (outcome: Result<Vec<Segment>, TokenizeError>)
    ensures
        match outcome {
            Ok(segments) => {
                &&& valid_utf8(body@)
                &&& segments.deep_view() == segments_of(body@)
                &&& hold_no_quote(segments.deep_view())
            },
            Err(error) => !valid_utf8(body@) && error == TokenizeError::MalformedInput,
        },
{
    let text = match core::str::from_utf8(body) {
        Ok(text) => text,
        Err(_) => {
            return Err(TokenizeError::MalformedInput);
        },
    };
    let limit: usize = if body.len() == 0 {
        0
    } else {
        body.len() - 1
    };
    let window = slice_subrange(body, 0, limit);
    assert(window@ =~= scanned(body@));
    let mut segments: Vec<Segment> = Vec::new();
    let mut origin: Option<String> = None;
    let ghost mut tokens: Seq<Seq<char>> = Seq::empty();
    let ghost mut from: int = 0;
    let mut open = find_quote(window, 0);
    let mut close = if open < limit {
        find_quote(window, open + 1)
    } else {
        limit
    };
    assert(segments.deep_view() =~= paired(tokens));
    while close < limit
        invariant
            limit == window@.len(),
            window@ == scanned(body@),
            window@ == body@.subrange(0, limit as int),
            text.spec_bytes() == body@,
            0 <= from <= limit,
            open == next_quote(window@, from),
            close == next_quote(window@, open + 1),
            from <= open <= limit,
            close <= limit,
            tokens + decoded(tokens_from(window@, from)) == decoded(tokens_from(window@, 0)),
            segments.deep_view() == paired(tokens),
            match origin {
                Some(first) => tokens.len() % 2 == 1 && first@ == tokens.last(),
                None => tokens.len() % 2 == 0,
            },
        decreases limit - close,
    {
        proof {
            lemma_next_quote(window@, from);
            lemma_next_quote(window@, open + 1);
        }
        let token = text_between(text, open, close);
        proof {
            let field = window@.subrange(open + 1, close as int);
            assert(field =~= body@.subrange(open + 1, close as int));
            assert(token@ == decode_utf8(field));
            let rest = tokens_from(window@, close + 1);
            assert(tokens_from(window@, from) == seq![field] + rest);
            assert(decoded(seq![field] + rest) =~= seq![decode_utf8(field)] + decoded(rest));
            assert(tokens.push(token@) + decoded(rest) =~= tokens + (seq![decode_utf8(field)]
                + decoded(rest)));
        }
        let ghost before = tokens;
        let ghost paired_before = segments.deep_view();
        proof {
            tokens = tokens.push(token@);
            from = close + 1;
        }
        match origin {
            Some(first) => {
                let segment = Segment::new(first, token);
                let ghost added = segment@;
                segments.push(segment);
                origin = None;
                proof {
                    let half = before.len() / 2;
                    assert(before.len() == 2 * half + 1);
                    assert(tokens.len() / 2 == half + 1);
                    assert(segments.deep_view() =~= paired_before.push(added));
                    assert(paired(tokens) =~= paired(before).push(added));
                }
            },
            None => {
                origin = Some(token);
                assert(paired(tokens) =~= paired(before));
            },
        }
        open = find_quote(window, close + 1);
        close =
        if open < limit {
            find_quote(window, open + 1)
        } else {
            limit
        };
    }
    proof {
        lemma_next_quote(window@, from);
        assert(tokens_from(window@, from) =~= Seq::<Seq<u8>>::empty());
        assert(tokens =~= decoded(tokens_from(window@, 0)));
        lemma_segments_hold_no_quote(body@);
    }
    Ok(segments)
}

} // verus!
