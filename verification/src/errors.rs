use vstd::prelude::*;

verus! {

/// The failure kinds of the library: an unreadable or unwritable file, bytes
/// that decode under neither accepted encoding, malformed record text, and an
/// invalid pattern source (the last is raised only by the caller that owns the
/// pattern string, never inside the segmenter or the exporter).
#[derive(Clone, Copy, PartialEq, Eq, Structural, Debug)]
pub enum SubError {
    Io,
    Encoding,
    Format,
    Pattern,
}

} // verus!
