use vstd::prelude::*;

verus! {

#[verifier::external_type_specification]
#[verifier::external_body]
pub struct ExRegex(regex::bytes::Regex);

/// A compiled pattern, paired with the source text it was compiled from.
/// The matching contracts speak of the source: the compiled value matches
/// exactly as a pattern compiled from that source does.
pub struct Pattern {
    pub source: String,
    regex: regex::bytes::Regex,
}

impl Pattern {
    /// A pattern is identified by its source text.
    pub closed spec fn src(&self) -> Seq<char> {
        self.source@
    }
}

/// The outcome of compiling a pattern source: a usable pattern, or the
/// reason the source was rejected. Only the layer that owns the source
/// string sees the invalid case; the segmenter and the exporter take a
/// compiled pattern alone.
pub enum PatternState {
    Compiled(Pattern),
    Invalid(String),
}

/// Whether the pattern language accepts a source text; the answer is a
/// function of the source alone.
pub uninterp spec fn pattern_accepts(src: Seq<char>) -> bool;

/// The (start, end) byte ranges of the successive non-overlapping leftmost
/// matches of the pattern compiled from src in a byte text, in order.
pub uninterp spec fn match_ranges(src: Seq<char>, text: Seq<u8>) -> Seq<(int, int)>;

/// True of a range list whose ranges lie within a text of length n, run
/// start to end, and never overlap: each range begins no earlier than the
/// end of the range before it.
pub open spec fn ranges_wf(rs: Seq<(int, int)>, n: int) -> bool {
    &&& forall|i: int| 0 <= i < rs.len() ==> 0 <= #[trigger] rs[i].0 <= rs[i].1 <= n
    &&& forall|i: int| 0 < i < rs.len() ==> rs[i - 1].1 <= #[trigger] rs[i].0
}

/// Relies on regex::bytes::Regex::new: it compiles exactly the sources that
/// the pattern language accepts, and reports a reason for the rest.
#[verifier::external_body]
fn regex_new(src: &str) -> (r: Result<regex::bytes::Regex, String>)
    ensures
        r is Ok <==> pattern_accepts(src@),
{
    match regex::bytes::Regex::new(src) {
        Ok(re) => Ok(re),
        Err(e) => Err(format!("{}", e)),
    }
}

/// Compiles a pattern source. The result is `Compiled` exactly when the
/// pattern language accepts the source, and the compiled pattern carries
/// that source.
pub fn compile_pattern(src: &str) -> (r: PatternState)
    ensures
        r is Compiled <==> pattern_accepts(src@),
        r matches PatternState::Compiled(p) ==> p.src() == src@,
{
    match regex_new(src) {
        Ok(re) => PatternState::Compiled(Pattern { source: src.to_owned(), regex: re }),
        Err(reason) => PatternState::Invalid(reason),
    }
}

/// Relies on regex::bytes::Regex::find_iter: it yields the successive
/// non-overlapping leftmost match ranges in order, each within the text and
/// starting no earlier than the end of the range before it, and the ranges
/// are a function of the pattern source and the text alone.
#[verifier::external_body]
pub(crate) fn find_ranges(p: &Pattern, text: &[u8]) -> (r: Vec<(usize, usize)>)
    ensures
        r@.map_values(|pr: (usize, usize)| (pr.0 as int, pr.1 as int)) == match_ranges(
            p.src(),
            text@,
        ),
        ranges_wf(
            r@.map_values(|pr: (usize, usize)| (pr.0 as int, pr.1 as int)),
            text@.len() as int,
        ),
{
    p.regex.find_iter(text).map(|m| (m.start(), m.end())).collect()
}

} // verus!
