use vstd::prelude::*;
use vstd::string::StringExecFns;

verus! {

/// Label shown for a path segment that is not valid UTF-8.
pub const UNNAMED: &'static str = "Unnamed";

/// The text that a byte string decodes to as UTF-8, or `None` when the
/// bytes are not valid UTF-8.
pub uninterp spec fn utf8_text(b: Seq<u8>) -> Option<Seq<char>>;

/// Relies on `std::str::from_utf8`: it accepts exactly the valid UTF-8 byte
/// strings, and the decoded text depends on the bytes alone.
#[verifier::external_body]
fn decode_segment(b: &Vec<u8>) -> (r: Option<String>)
    ensures
        match r {
            Some(s) => utf8_text(b@) == Some(s@),
            None => utf8_text(b@).is_none(),
        },
{
    match std::str::from_utf8(b.as_slice()) {
        Ok(s) => Some(s.to_string()),
        Err(_) => None,
    }
}

/// The label of a node whose segment decoded to `decoded`.
pub open spec fn label_of_decoded(decoded: Option<Seq<char>>) -> Seq<char> {
    match decoded {
        Some(s) => s,
        None => UNNAMED@,
    }
}

/// The label of a node for the path segment `seg`.
pub open spec fn label_spec(seg: Seq<u8>) -> Seq<char> {
    label_of_decoded(utf8_text(seg))
}

/// Turns the outcome of decoding a segment into a display label: the
/// decoded text, or the sentinel `"Unnamed"` when decoding failed.
pub fn label_or_unnamed(decoded: Option<String>) -> (r: String)
    ensures
        r@ == label_of_decoded(
            match decoded {
                Some(s) => Some(s@),
                None => None,
            },
        ),
{
    match decoded {
        Some(s) => s,
        None => String::from_str(UNNAMED),
    }
}

/// The display label of the path segment `seg`.
pub fn segment_label(seg: &Vec<u8>) -> (r: String)
    ensures
        r@ == label_spec(seg@),
{
    let d = decode_segment(seg);
    label_or_unnamed(d)
}

} // verus!
