//! The JSON text of a result.
//!
//! A result is written as one object whose only member, `result`, is the list
//! of segments, each a two-element array of strings: first the origin, then the
//! destination. The text is compact: it holds no white space between its parts.
//! How a string is quoted and escaped is left to `serde_json`.

use crate::segment::{Segment, SegmentView};
use vstd::prelude::*;
use vstd::string::*;

verus! {

/// The text that `serde_json` writes for the JSON string `text` in its compact
/// form: a string literal, with the quotes around it.
pub uninterp spec fn json_string_text(text: Seq<char>) -> Seq<char>;

/// Calls `to_string` on `serde_json::Value::String(text)`, which runs
/// `serde_json`'s `Display` for `Value`. The contract is believed, not proved.
/// It claims no more than that the text returned depends on `text` alone: which
/// characters are escaped, and how, is said nowhere.
#[verifier::external_body]
fn json_string(text: &str) -> (literal: String)
    ensures
        literal@ == json_string_text(text@),
{
    serde_json::Value::String(text.to_owned()).to_string()
}

/// The array that stands for one segment.
pub open spec fn pair_text(segment: SegmentView) -> Seq<char> {
    "["@ + json_string_text(segment.origin) + ","@ + json_string_text(segment.destination)
        + "]"@
}

/// The arrays of all segments, in order, with a comma between neighbours.
pub open spec fn pairs_text(segments: Seq<SegmentView>) -> Seq<char>
    decreases segments.len(),
{
    if segments.len() == 0 {
        Seq::empty()
    } else if segments.len() == 1 {
        pair_text(segments[0])
    } else {
        pairs_text(segments.drop_last()) + ","@ + pair_text(segments.last())
    }
}

/// The whole document for a list of segments.
pub open spec fn result_text(segments: Seq<SegmentView>) -> Seq<char> {
    "{\"result\":["@ + pairs_text(segments) + "]}"@
}

/// Writes the array that stands for one segment.
pub fn render_pair(segment: &Segment) -> (text: String)
    ensures
        text@ == pair_text(segment@),
{
    let origin = json_string(segment.origin().as_str());
    let destination = json_string(segment.destination().as_str());
    let mut text = String::from_str("[");
    text.append(origin.as_str());
    text.append(",");
    text.append(destination.as_str());
    text.append("]");
    text
}

/// Writes the document for a list of segments, in the order of the list.
pub fn render_result(segments: &Vec<Segment>) -> (text: String)
    ensures
        text@ == result_text(segments.deep_view()),
{
    let ghost all = segments.deep_view();
    let mut text = String::from_str("{\"result\":[");
    let mut k: usize = 0;
    assert(pairs_text(all.take(0)) =~= Seq::<char>::empty());
    while k < segments.len()
        invariant
            k <= segments.len(),
            all == segments.deep_view(),
            text@ == "{\"result\":["@ + pairs_text(all.take(k as int)),
        decreases segments.len() - k,
    {
        let pair = render_pair(&segments[k]);
        proof {
            let upto = all.take(k + 1);
            assert(upto.drop_last() =~= all.take(k as int));
            assert(upto.last() == segments[k as int]@);
        }
        if k > 0 {
            text.append(",");
        }
        text.append(pair.as_str());
        k += 1;
    }
    assert(all.take(k as int) =~= all);
    text.append("]}");
    text
}

} // verus!
