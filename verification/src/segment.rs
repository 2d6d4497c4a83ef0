//! Segmentation: splitting a span of text into pieces with the compiled
//! segmentation pattern. The pattern language (lookaround assertions,
//! Unicode classes) comes from the `fancy_regex` crate, so the split itself
//! is trusted; everything downstream of the returned pieces is verified.
use vstd::prelude::*;

verus! {

/// Whether the pattern text compiles as a regular expression.
pub uninterp spec fn regex_ok(pat: Seq<char>) -> bool;

/// The pieces that the compiled pattern's successive non-overlapping matches
/// cut out of a span of bytes, or nothing when the pattern does not compile
/// or the match engine gives up on the span. Both the compilation and the
/// search depend on the pattern and the span alone, so the outcome is one
/// fixed value for each argument pair.
pub uninterp spec fn seg_pieces_of(pat: Seq<char>, piece: Seq<u8>) -> Option<Seq<Seq<u8>>>;

/// Relies on `fancy_regex::Regex::new`: compiling a pattern succeeds or fails
/// depending on the pattern text alone.
#[verifier::external_body]
pub fn regex_new_ok(pat: &str) -> (r: bool)
    ensures
        r == regex_ok(pat@),
{
    fancy_regex::Regex::new(pat).is_ok()
}

/// Relies on `core::str::from_utf8` (valid UTF-8 acceptance),
/// `fancy_regex::Regex::new` and `fancy_regex::Regex::find_iter`: the match
/// ranges of successive non-overlapping matches are a function of the pattern
/// and the span alone. The compiled regex value itself cannot be described to
/// the verifier, so compilation and search stand together in this one body.
/// Returns the matched pieces in order, or nothing when the span is not valid
/// UTF-8, the pattern does not compile, or the match engine errors out.
#[verifier::external_body]
pub fn seg_find_all(pat: &str, piece: &[u8]) -> (r: Option<Vec<Vec<u8>>>)
    ensures
        (r is Some) <==> (vstd::utf8::valid_utf8(piece@) && seg_pieces_of(pat@, piece@) is Some),
        (r matches Some(v) ==> Some(v.deep_view()) == seg_pieces_of(pat@, piece@)),
        !regex_ok(pat@) ==> r is None,
{
    let text = match core::str::from_utf8(piece) { Ok(t) => t, Err(_) => return None };
    let re = match fancy_regex::Regex::new(pat) { Ok(r) => r, Err(_) => return None };
    let mut out: Vec<Vec<u8>> = Vec::new();
    let mut it = re.find_iter(text);
    loop {
        match it.next() {
            Some(Ok(m)) => out.push(m.as_str().as_bytes().to_vec()),
            Some(Err(_)) => return None,
            None => return Some(out),
        }
    }
}

/// The segmentation is covering: whenever the pattern's matcher runs on a
/// valid span, its pieces concatenate back to the span. This holds of the
/// segmentation pattern family the codec is used with, though not of every
/// conceivable pattern.
pub open spec fn seg_total(pat: Seq<char>) -> bool {
    forall|b: Seq<u8>|
        (vstd::utf8::valid_utf8(b) && #[trigger] seg_pieces_of(pat, b) is Some) ==> (
        seg_pieces_of(pat, b)->0).flatten() == b
}

} // verus!
