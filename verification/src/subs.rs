use vstd::prelude::*;
use crate::bytes_util::{sub_bytes, push_all};
use crate::errors::SubError;
use crate::time::{MovieTime, parse_tc, timecode_from_bytes, is_digit_byte, digit_val};

verus! {

/// One subtitle entry: the ordinal index as read, the start and stop time
/// codes, and the text with inner newlines, as decoded bytes.
#[derive(Debug, PartialEq)]
pub struct Subtitle {
    pub index: u16,
    pub start: MovieTime,
    pub stop: MovieTime,
    pub text: Vec<u8>,
}

/// The spec-level form of a record.
pub ghost struct SubRec {
    pub index: u16,
    pub start: MovieTime,
    pub stop: MovieTime,
    pub text: Seq<u8>,
}

impl View for Subtitle {
    type V = SubRec;

    open spec fn view(&self) -> SubRec {
        SubRec { index: self.index, start: self.start, stop: self.stop, text: self.text@ }
    }
}

/// The views of a record vector.
pub open spec fn recs_view(s: Seq<Subtitle>) -> Seq<SubRec> {
    s.map_values(|x: Subtitle| x@)
}

/// What decoding the raw bytes as UTF-8 (with initial byte-order-mark
/// sniffing) yields, re-encoded as UTF-8 bytes; nothing when malformed
/// sequences were met.
pub uninterp spec fn utf8_decoded(b: Seq<u8>) -> Option<Seq<u8>>;

/// What decoding the raw bytes as the Windows-1252 fallback codepage (again
/// with byte-order-mark sniffing) yields, as UTF-8 bytes; nothing when the
/// sniffed encoding met malformed sequences.
pub uninterp spec fn win1252_decoded(b: Seq<u8>) -> Option<Seq<u8>>;

/// Relies on encoding_rs::UTF_8.decode: a whole-buffer decode whose result
/// depends on the input bytes alone, and whose flag reports malformed
/// sequences.
#[verifier::external_body]
fn decode_utf8(bytes: &Vec<u8>) -> (r: Option<Vec<u8>>)
    ensures
        r is Some <==> utf8_decoded(bytes@) is Some,
        r matches Some(v) ==> Some(v@) == utf8_decoded(bytes@),
{
    let (cow, _, had_errors) = encoding_rs::UTF_8.decode(bytes);
    if had_errors {
        None
    } else {
        Some(cow.into_owned().into_bytes())
    }
}

/// Relies on encoding_rs::WINDOWS_1252.decode: a whole-buffer decode whose
/// result depends on the input bytes alone, and whose flag reports
/// malformed sequences under the sniffed encoding.
#[verifier::external_body]
fn decode_win1252(bytes: &Vec<u8>) -> (r: Option<Vec<u8>>)
    ensures
        r is Some <==> win1252_decoded(bytes@) is Some,
        r matches Some(v) ==> Some(v@) == win1252_decoded(bytes@),
{
    let (cow, _, had_errors) = encoding_rs::WINDOWS_1252.decode(bytes);
    if had_errors {
        None
    } else {
        Some(cow.into_owned().into_bytes())
    }
}

/// The position of the first newline byte at or after i, or the text length
/// when there is none.
pub open spec fn line_end(b: Seq<u8>, i: int) -> int
    decreases b.len() - i,
{
    if i >= b.len() {
        b.len() as int
    } else if b[i] == 10 {
        i
    } else {
        line_end(b, i + 1)
    }
}

proof fn lemma_line_end(b: Seq<u8>, i: int)
    ensures
        line_end(b, i) <= b.len(),
        i <= b.len() ==> i <= line_end(b, i),
    decreases b.len() - i,
{
    if i >= b.len() {
    } else if b[i] == 10 {
    } else {
        lemma_line_end(b, i + 1);
    }
}

/// One line piece with a single carriage return before the newline removed,
/// as the line splitter does for \r\n endings.
pub open spec fn strip_cr(l: Seq<u8>) -> Seq<u8> {
    if l.len() > 0 && l[l.len() - 1] == 13 {
        l.take(l.len() - 1)
    } else {
        l
    }
}

/// The lines of the decoded text from offset i on, split at newline bytes;
/// a carriage return is dropped only before a newline, and a trailing
/// newline opens no final empty line.
pub open spec fn lines_from(b: Seq<u8>, i: int) -> Seq<Seq<u8>>
    decreases b.len() - i,
    via lines_from_dec
{
    if i >= b.len() {
        Seq::empty()
    } else {
        let e = line_end(b, i);
        if e == b.len() {
            seq![b.subrange(i, e)]
        } else {
            seq![strip_cr(b.subrange(i, e))] + lines_from(b, e + 1)
        }
    }
}

#[via_fn]
proof fn lines_from_dec(b: Seq<u8>, i: int) {
    lemma_line_end(b, i);
}

/// The lines of the decoded text.
pub open spec fn lines_of(b: Seq<u8>) -> Seq<Seq<u8>> {
    lines_from(b, 0)
}

/// The views of a line vector.
pub open spec fn lines_view(s: Seq<Vec<u8>>) -> Seq<Seq<u8>> {
    s.map_values(|x: Vec<u8>| x@)
}

/// Splits the decoded text into its lines.
fn split_lines(b: &Vec<u8>) -> (r: Vec<Vec<u8>>)
    ensures
        lines_view(r@) == lines_of(b@),
{
    let mut r: Vec<Vec<u8>> = Vec::new();
    let mut i: usize = 0;
    proof {
        assert(lines_view(r@) =~= Seq::<Seq<u8>>::empty());
        assert(lines_view(r@) + lines_from(b@, 0) =~= lines_of(b@));
    }
    while i < b.len()
        invariant
            i <= b@.len(),
            lines_view(r@) + lines_from(b@, i as int) == lines_of(b@),
        decreases b@.len() - i,
    {
        let ghost i0 = i as int;
        let mut e: usize = i;
        while e < b.len() && b[e] != 10
            invariant
                i <= e <= b@.len(),
                line_end(b@, i as int) == line_end(b@, e as int),
            decreases b@.len() - e,
        {
            e = e + 1;
        }
        proof {
            assert(line_end(b@, e as int) == e);
        }
        let mut line = sub_bytes(b.as_slice(), i, e);
        let ghost r0 = lines_view(r@);
        if e < b.len() {
            if line.len() > 0 && line[line.len() - 1] == 13 {
                line.pop();
            }
            proof {
                assert(b@.subrange(i0, e as int).len() == e - i0);
                assert(line@ =~= strip_cr(b@.subrange(i0, e as int)));
            }
            r.push(line);
            i = e + 1;
            proof {
                assert(lines_from(b@, i0) == seq![strip_cr(b@.subrange(i0, e as int))]
                    + lines_from(b@, i as int));
                assert(lines_view(r@) =~= r0 + seq![strip_cr(b@.subrange(i0, e as int))]);
                assert(lines_view(r@) + lines_from(b@, i as int) =~= lines_of(b@));
            }
        } else {
            r.push(line);
            i = e;
            proof {
                assert(lines_from(b@, i0) == seq![b@.subrange(i0, e as int)]);
                assert(lines_view(r@) =~= r0 + seq![b@.subrange(i0, e as int)]);
                assert(lines_from(b@, i as int) =~= Seq::<Seq<u8>>::empty());
                assert(lines_view(r@) + lines_from(b@, i as int) =~= lines_of(b@));
            }
        }
    }
    proof {
        assert(lines_from(b@, i as int) =~= Seq::<Seq<u8>>::empty());
        assert(lines_view(r@) =~= lines_of(b@));
    }
    r
}

/// The value of a digit byte string read left to right; meaningful only
/// while every byte is a digit.
pub open spec fn dec_value(b: Seq<u8>) -> int
    decreases b.len(),
{
    if b.len() == 0 {
        0
    } else {
        dec_value(b.take(b.len() - 1)) * 10 + digit_val(b[b.len() - 1])
    }
}

/// True of a non-empty, digits-only byte string.
pub open spec fn all_digits(b: Seq<u8>) -> bool {
    b.len() > 0 && forall|j: int| 0 <= j < b.len() ==> is_digit_byte(#[trigger] b[j])
}

/// What parsing a record's ordinal yields: the decimal value of a
/// non-empty, digits-only string that fits the index type; anything else is
/// rejected.
pub open spec fn parse_index(b: Seq<u8>) -> Option<u16> {
    if all_digits(b) && dec_value(b) <= 65535 {
        Some(dec_value(b) as u16)
    } else {
        None
    }
}

proof fn lemma_dec_value_mono(b: Seq<u8>, m: int, n: int)
    requires
        0 <= m <= n <= b.len(),
        dec_value(b.take(m)) >= 0,
        forall|k: int| m <= k < n ==> is_digit_byte(#[trigger] b[k]),
    ensures
        dec_value(b.take(n)) >= dec_value(b.take(m)),
    decreases n - m,
{
    if m < n {
        lemma_dec_value_mono(b, m, n - 1);
        assert(b.take(n).take(n - 1) =~= b.take(n - 1));
        assert(b.take(n)[n - 1] == b[n - 1]);
        assert(dec_value(b.take(n)) == dec_value(b.take(n - 1)) * 10 + digit_val(b[n - 1]));
    }
}

/// Parses a record ordinal: digits only, rejecting values that overflow the
/// index type.
fn parse_index_exec(b: &[u8]) -> (r: Option<u16>)
    ensures
        r == parse_index(b@),
{
    if b.len() == 0 {
        return None;
    }
    let mut acc: u32 = 0;
    let mut j: usize = 0;
    proof {
        assert(b@.take(0) =~= Seq::<u8>::empty());
    }
    while j < b.len()
        invariant
            j <= b@.len(),
            forall|k: int| 0 <= k < j ==> is_digit_byte(#[trigger] b@[k]),
            acc == dec_value(b@.take(j as int)),
            acc <= 65535,
        decreases b@.len() - j,
    {
        let c = b[j];
        if c < 48 || c > 57 {
            return None;
        }
        let d = (c - 48) as u32;
        let t = acc * 10 + d;
        proof {
            assert(b@.take(j + 1).take(j as int) =~= b@.take(j as int));
            assert(b@.take(j + 1)[j as int] == b@[j as int]);
            assert(dec_value(b@.take(j + 1)) == dec_value(b@.take(j as int)) * 10 + digit_val(
                b@[j as int],
            ));
        }
        if t > 65535 {
            proof {
                if all_digits(b@) {
                    lemma_dec_value_mono(b@, j + 1, b@.len() as int);
                    assert(b@.take(b@.len() as int) =~= b@);
                }
            }
            return None;
        }
        acc = t;
        j = j + 1;
    }
    proof {
        assert(b@.take(j as int) =~= b@);
    }
    Some(acc as u16)
}

/// True when the five-byte ` --> ` separator stands at offset i.
pub open spec fn arrow_at(b: Seq<u8>, i: int) -> bool {
    &&& i + 5 <= b.len()
    &&& b[i] == 32
    &&& b[i + 1] == 45
    &&& b[i + 2] == 45
    &&& b[i + 3] == 62
    &&& b[i + 4] == 32
}

/// The position of the first ` --> ` separator at or after i, if any.
pub open spec fn find_arrow_from(b: Seq<u8>, i: int) -> Option<int>
    decreases b.len() - i,
{
    if i + 5 > b.len() {
        None
    } else if arrow_at(b, i) {
        Some(i)
    } else {
        find_arrow_from(b, i + 1)
    }
}

/// What splitting a timing line yields: the text before and after the first
/// ` --> ` separator, provided exactly one separator occurs; any other
/// shape is malformed.
pub open spec fn split_timing(b: Seq<u8>) -> Option<(Seq<u8>, Seq<u8>)> {
    match find_arrow_from(b, 0) {
        Some(i) => {
            if find_arrow_from(b.skip(i + 5), 0) is Some {
                None
            } else {
                Some((b.take(i), b.skip(i + 5)))
            }
        },
        None => None,
    }
}

/// Finds the first ` --> ` separator.
fn find_arrow(b: &[u8]) -> (r: Option<usize>)
    ensures
        match r {
            Some(i) => find_arrow_from(b@, 0) == Some(i as int) && arrow_at(b@, i as int),
            None => find_arrow_from(b@, 0) is None,
        },
{
    if b.len() < 5 {
        return None;
    }
    let mut i: usize = 0;
    while i <= b.len() - 5
        invariant
            b@.len() >= 5,
            i <= b@.len(),
            find_arrow_from(b@, 0) == find_arrow_from(b@, i as int),
        decreases b@.len() - i,
    {
        if b[i] == 32 && b[i + 1] == 45 && b[i + 2] == 45 && b[i + 3] == 62 && b[i + 4] == 32 {
            return Some(i);
        }
        proof {
            assert(!arrow_at(b@, i as int));
        }
        i = i + 1;
    }
    None
}

/// Splits a timing line on the separator into exactly two fields.
fn split_timing_exec(b: &[u8]) -> (r: Option<(Vec<u8>, Vec<u8>)>)
    ensures
        r is Some <==> split_timing(b@) is Some,
        r matches Some(pr) ==> split_timing(b@) == Some((pr.0@, pr.1@)),
{
    match find_arrow(b) {
        None => None,
        Some(i) => {
            let n = b.len();
            let right = sub_bytes(b, i + 5, n);
            proof {
                assert(right@ =~= b@.skip(i + 5));
            }
            match find_arrow(right.as_slice()) {
                Some(_) => None,
                None => {
                    let left = sub_bytes(b, 0, i);
                    proof {
                        assert(left@ =~= b@.take(i as int));
                    }
                    Some((left, right))
                },
            }
        },
    }
}

/// The record built at a blank line from the three slots: the timing slot
/// must split into exactly two fields, the fields must parse as time codes,
/// and the index slot must parse as an ordinal.
pub open spec fn emit_record(idx: Seq<u8>, tim: Seq<u8>, text: Seq<u8>) -> Option<SubRec> {
    match split_timing(tim) {
        Some((l, r)) => match (parse_index(idx), parse_tc(l), parse_tc(r)) {
            (Some(i), Ok(s), Ok(e)) => Some(SubRec { index: i, start: s, stop: e, text }),
            _ => None,
        },
        None => None,
    }
}

/// Builds the record of a completed block, or reports it malformed.
fn emit_exec(idx: &Vec<u8>, tim: &Vec<u8>, text: Vec<u8>) -> (r: Result<Subtitle, SubError>)
    ensures
        match r {
            Ok(s) => emit_record(idx@, tim@, text@) == Some(s@),
            Err(e) => emit_record(idx@, tim@, text@) is None && e == SubError::Format,
        },
{
    let fields = match split_timing_exec(tim.as_slice()) {
        Some(p) => p,
        None => {
            return Err(SubError::Format);
        },
    };
    let ix = match parse_index_exec(idx.as_slice()) {
        Some(v) => v,
        None => {
            return Err(SubError::Format);
        },
    };
    let start = match timecode_from_bytes(fields.0.as_slice()) {
        Ok(t) => t,
        Err(_) => {
            return Err(SubError::Format);
        },
    };
    let stop = match timecode_from_bytes(fields.1.as_slice()) {
        Ok(t) => t,
        Err(_) => {
            return Err(SubError::Format);
        },
    };
    Ok(Subtitle { index: ix, start, stop, text })
}

/// Runs the three-slot state machine over the remaining lines: a non-blank
/// line fills the index slot, then the timing slot, then joins the text
/// with a newline; a blank line emits a record from the slots and resets
/// them. Lines after the last blank line are dropped.
pub open spec fn run_lines(
    lines: Seq<Seq<u8>>,
    idx: Option<Seq<u8>>,
    tim: Option<Seq<u8>>,
    text: Seq<u8>,
    acc: Seq<SubRec>,
) -> Result<Seq<SubRec>, SubError>
    decreases lines.len(),
{
    if lines.len() == 0 {
        Ok(acc)
    } else {
        let l = lines[0];
        let rest = lines.skip(1);
        if l.len() != 0 {
            if idx is None {
                run_lines(rest, Some(l), tim, text, acc)
            } else if tim is None {
                run_lines(rest, idx, Some(l), text, acc)
            } else {
                let joined = if text.len() == 0 {
                    l
                } else {
                    text + seq![10u8] + l
                };
                run_lines(rest, idx, tim, joined, acc)
            }
        } else {
            match (idx, tim) {
                (Some(iv), Some(tv)) => match emit_record(iv, tv, text) {
                    Some(r) => run_lines(rest, None, None, Seq::empty(), acc.push(r)),
                    None => Err(SubError::Format),
                },
                _ => Err(SubError::Format),
            }
        }
    }
}

/// Inserts a record into a sorted run from the right, after every record
/// whose index is at most its own: ties keep their arrival order.
pub open spec fn insert_sorted(r: SubRec, s: Seq<SubRec>) -> Seq<SubRec>
    decreases s.len(),
{
    if s.len() == 0 {
        seq![r]
    } else if s.last().index > r.index {
        insert_sorted(r, s.drop_last()).push(s.last())
    } else {
        s.push(r)
    }
}

/// Stable insertion sort of the records by their parsed index.
pub open spec fn sort_records(s: Seq<SubRec>) -> Seq<SubRec>
    decreases s.len(),
{
    if s.len() == 0 {
        Seq::empty()
    } else {
        insert_sorted(s.last(), sort_records(s.drop_last()))
    }
}

/// What loading raw file bytes yields: decode as UTF-8, else as the
/// fallback codepage, else fail with an encoding error; then run the line
/// state machine and stable-sort the records by index.
pub open spec fn spec_load(b: Seq<u8>) -> Result<Seq<SubRec>, SubError> {
    let decoded = match utf8_decoded(b) {
        Some(t) => Some(t),
        None => win1252_decoded(b),
    };
    match decoded {
        Some(t) => match run_lines(lines_of(t), None, None, Seq::empty(), Seq::empty()) {
            Ok(rs) => Ok(sort_records(rs)),
            Err(e) => Err(e),
        },
        None => Err(SubError::Encoding),
    }
}

/// Determinism: equal byte contents load to equal record sequences.
pub proof fn lemma_load_deterministic(b1: Seq<u8>, b2: Seq<u8>)
    requires
        b1 == b2,
    ensures
        spec_load(b1) == spec_load(b2),
{
}

/// True when the records run in ascending index order.
pub open spec fn sorted_by_index(s: Seq<SubRec>) -> bool {
    forall|a: int, c: int| 0 <= a < c < s.len() ==> s[a].index <= s[c].index
}

proof fn lemma_insert_sorted_bound(r: SubRec, s: Seq<SubRec>, bnd: u16)
    requires
        r.index <= bnd,
        forall|k: int| 0 <= k < s.len() ==> (#[trigger] s[k]).index <= bnd,
    ensures
        forall|k: int|
            0 <= k < insert_sorted(r, s).len() ==> (#[trigger] insert_sorted(r, s)[k]).index <= bnd,
    decreases s.len(),
{
    if s.len() == 0 {
    } else if s.last().index > r.index {
        lemma_insert_sorted_bound(r, s.drop_last(), bnd);
        assert(s.last() == s[s.len() - 1]);
        let t = insert_sorted(r, s.drop_last());
        assert forall|k: int| 0 <= k < insert_sorted(r, s).len() implies (#[trigger] insert_sorted(
            r,
            s,
        )[k]).index <= bnd by {
            if k < t.len() {
                assert(insert_sorted(r, s)[k] == t[k]);
            } else {
                assert(insert_sorted(r, s)[k] == s.last());
            }
        }
    } else {
        assert forall|k: int| 0 <= k < insert_sorted(r, s).len() implies (#[trigger] insert_sorted(
            r,
            s,
        )[k]).index <= bnd by {
            if k < s.len() {
                assert(insert_sorted(r, s)[k] == s[k]);
            } else {
                assert(insert_sorted(r, s)[k] == r);
            }
        }
    }
}

proof fn lemma_insert_sorted_sorted(r: SubRec, s: Seq<SubRec>)
    requires
        sorted_by_index(s),
    ensures
        sorted_by_index(insert_sorted(r, s)),
    decreases s.len(),
{
    if s.len() == 0 {
    } else if s.last().index > r.index {
        assert(sorted_by_index(s.drop_last()));
        lemma_insert_sorted_sorted(r, s.drop_last());
        assert(s.last() == s[s.len() - 1]);
        assert forall|k: int| 0 <= k < s.drop_last().len() implies (#[trigger] s.drop_last()[
            k
        ]).index <= s.last().index by {
            assert(s.drop_last()[k] == s[k]);
        }
        lemma_insert_sorted_bound(r, s.drop_last(), s.last().index);
        let t = insert_sorted(r, s.drop_last());
        assert forall|a: int, c: int|
            0 <= a < c < insert_sorted(r, s).len() implies (#[trigger] insert_sorted(r, s)[
            a
        ]).index <= (#[trigger] insert_sorted(r, s)[c]).index by {
            if c < t.len() {
                assert(insert_sorted(r, s)[a] == t[a]);
                assert(insert_sorted(r, s)[c] == t[c]);
            } else {
                assert(insert_sorted(r, s)[c] == s.last());
                assert(insert_sorted(r, s)[a] == t[a]);
                assert(t[a].index <= s.last().index);
            }
        }
    } else {
        assert forall|a: int, c: int|
            0 <= a < c < s.push(r).len() implies (#[trigger] s.push(r)[a]).index <= (
        #[trigger] s.push(r)[c]).index by {
            if c < s.len() {
                assert(s.push(r)[a] == s[a]);
                assert(s.push(r)[c] == s[c]);
            } else {
                if a < s.len() {
                    assert(s.push(r)[a] == s[a]);
                    assert(s[a].index <= s.last().index);
                }
            }
        }
    }
}

/// Order law: after the sort the records run in ascending index order.
pub proof fn lemma_sort_records_sorted(s: Seq<SubRec>)
    ensures
        sorted_by_index(sort_records(s)),
    decreases s.len(),
{
    if s.len() > 0 {
        lemma_sort_records_sorted(s.drop_last());
        lemma_insert_sorted_sorted(s.last(), sort_records(s.drop_last()));
    }
}

/// The records that carry one given index value.
pub open spec fn has_index(k: u16) -> spec_fn(SubRec) -> bool {
    |r: SubRec| r.index == k
}

proof fn lemma_insert_sorted_filter(r: SubRec, s: Seq<SubRec>, k: u16)
    ensures
        insert_sorted(r, s).filter(has_index(k)) == s.filter(has_index(k)) + (if r.index == k {
            seq![r]
        } else {
            Seq::<SubRec>::empty()
        }),
    decreases s.len(),
{
    reveal(Seq::<SubRec>::filter);
    let tail: Seq<SubRec> = if r.index == k {
        seq![r]
    } else {
        Seq::empty()
    };
    if s.len() == 0 {
        assert(seq![r].drop_last() =~= Seq::<SubRec>::empty());
        assert(Seq::<SubRec>::empty().filter(has_index(k)) =~= Seq::<SubRec>::empty());
        assert(seq![r].filter(has_index(k)) =~= tail);
        assert(insert_sorted(r, s).filter(has_index(k)) =~= s.filter(has_index(k)) + tail);
    } else if s.last().index > r.index {
        lemma_insert_sorted_filter(r, s.drop_last(), k);
        let inner = insert_sorted(r, s.drop_last());
        assert(insert_sorted(r, s) == inner.push(s.last()));
        assert(inner.push(s.last()).drop_last() =~= inner);
        assert(inner.push(s.last()).last() == s.last());
        if s.last().index == k {
            assert(r.index != k);
            assert(tail =~= Seq::<SubRec>::empty());
            assert(inner.filter(has_index(k)) =~= s.drop_last().filter(has_index(k)));
            assert(inner.push(s.last()).filter(has_index(k)) == inner.filter(has_index(k)).push(
                s.last(),
            ));
            assert(s.filter(has_index(k)) == s.drop_last().filter(has_index(k)).push(s.last()));
            assert(insert_sorted(r, s).filter(has_index(k)) =~= s.filter(has_index(k)) + tail);
        } else {
            assert(inner.push(s.last()).filter(has_index(k)) == inner.filter(has_index(k)));
            assert(s.filter(has_index(k)) == s.drop_last().filter(has_index(k)));
            assert(insert_sorted(r, s).filter(has_index(k)) =~= s.filter(has_index(k)) + tail);
        }
    } else {
        assert(insert_sorted(r, s) == s.push(r));
        assert(s.push(r).drop_last() =~= s);
        assert(s.push(r).last() == r);
        if r.index == k {
            assert(s.push(r).filter(has_index(k)) == s.filter(has_index(k)).push(r));
            assert(insert_sorted(r, s).filter(has_index(k)) =~= s.filter(has_index(k)) + tail);
        } else {
            assert(s.push(r).filter(has_index(k)) == s.filter(has_index(k)));
            assert(tail =~= Seq::<SubRec>::empty());
            assert(insert_sorted(r, s).filter(has_index(k)) =~= s.filter(has_index(k)) + tail);
        }
    }
}

/// Stability law: the sort keeps the records of each index value in their
/// arrival order — filtering either side to one index value gives the very
/// same subsequence.
pub proof fn lemma_sort_records_stable(s: Seq<SubRec>, k: u16)
    ensures
        sort_records(s).filter(has_index(k)) == s.filter(has_index(k)),
    decreases s.len(),
{
    reveal(Seq::<SubRec>::filter);
    if s.len() > 0 {
        lemma_sort_records_stable(s.drop_last(), k);
        lemma_insert_sorted_filter(s.last(), sort_records(s.drop_last()), k);
        if s.last().index == k {
            assert(s.filter(has_index(k)) == s.drop_last().filter(has_index(k)).push(s.last()));
            assert(sort_records(s).filter(has_index(k)) =~= s.filter(has_index(k)));
        } else {
            assert(s.filter(has_index(k)) == s.drop_last().filter(has_index(k)));
            assert(sort_records(s).filter(has_index(k)) =~= s.filter(has_index(k)));
        }
    }
}

/// The slot content a stored line position stands for.
pub open spec fn slot_view(lines: Seq<Seq<u8>>, s: Option<usize>) -> Option<Seq<u8>> {
    match s {
        None => None,
        Some(k) => Some(lines[k as int]),
    }
}

proof fn lemma_insert_at(x: SubRec, s: Seq<SubRec>, j: int)
    requires
        0 <= j <= s.len(),
        forall|k: int| j <= k < s.len() ==> (#[trigger] s[k]).index > x.index,
        j > 0 ==> s[j - 1].index <= x.index,
    ensures
        insert_sorted(x, s) == s.take(j) + seq![x] + s.skip(j),
    decreases s.len(),
{
    if j == s.len() {
        if s.len() == 0 {
            assert(insert_sorted(x, s) =~= s.take(j) + seq![x] + s.skip(j));
        } else {
            assert(s.last().index <= x.index);
            assert(insert_sorted(x, s) == s.push(x));
            assert(s.push(x) =~= s.take(j) + seq![x] + s.skip(j));
        }
    } else {
        assert(s.last() == s[s.len() - 1]);
        assert(s.last().index > x.index);
        lemma_insert_at(x, s.drop_last(), j);
        assert(s.drop_last().take(j) =~= s.take(j));
        assert(s.drop_last().skip(j) =~= s.skip(j).drop_last());
        assert(insert_sorted(x, s) == (s.take(j) + seq![x] + s.skip(j).drop_last()).push(s.last()));
        assert((s.take(j) + seq![x] + s.skip(j).drop_last()).push(s.last()) =~= s.take(j) + seq![x]
            + s.skip(j));
    }
}

/// Sorts the records by index with a stable insertion sort.
fn sort_subtitles(v: &mut Vec<Subtitle>)
    ensures
        recs_view(final(v)@) == sort_records(recs_view(old(v)@)),
{
    if v.len() == 0 {
        proof {
            assert(recs_view(v@) =~= Seq::<SubRec>::empty());
            assert(recs_view(old(v)@) =~= Seq::<SubRec>::empty());
        }
        return ;
    }
    let mut i: usize = 1;
    proof {
        let s1 = recs_view(old(v)@.take(1));
        assert(recs_view(v@.take(1)) =~= seq![old(v)@[0]@]);
        assert(s1 =~= seq![old(v)@[0]@]);
        assert(s1.drop_last() =~= Seq::<SubRec>::empty());
        assert(sort_records(Seq::<SubRec>::empty()) == Seq::<SubRec>::empty());
        assert(s1.last() == old(v)@[0]@);
        assert(sort_records(s1) == insert_sorted(old(v)@[0]@, sort_records(s1.drop_last())));
        assert(insert_sorted(old(v)@[0]@, Seq::<SubRec>::empty()) == seq![old(v)@[0]@]);
    }
    while i < v.len()
        invariant
            1 <= i <= v@.len(),
            v@.len() == old(v)@.len(),
            forall|k: int| i <= k < v@.len() ==> v@[k] == old(v)@[k],
            recs_view(v@.take(i as int)) == sort_records(recs_view(old(v)@.take(i as int))),
        decreases v@.len() - i,
    {
        let ghost sorted_prefix = recs_view(v@.take(i as int));
        let ghost x = v@[i as int]@;
        let mut j: usize = i;
        while j > 0 && v[j - 1].index > v[j].index
            invariant
                0 < i < v@.len(),
                0 <= j <= i,
                v@.len() == old(v)@.len(),
                sorted_prefix.len() == i,
                forall|k: int| i < k < v@.len() ==> v@[k] == old(v)@[k],
                forall|k: int|
                    j <= k < sorted_prefix.len() ==> (#[trigger] sorted_prefix[k]).index > x.index,
                v@[j as int]@ == x,
                forall|k: int| 0 <= k < j ==> v@[k]@ == sorted_prefix[k],
                forall|k: int| j < k <= i ==> v@[k]@ == sorted_prefix[k - 1],
            decreases j,
        {
            let ghost w = v@;
            let moved = v.remove(j);
            v.insert(j - 1, moved);
            j = j - 1;
            proof {
                assert forall|k: int| 0 <= k < v@.len() implies v@[k] == (if k == j {
                    w[j + 1]
                } else if k == j + 1 {
                    w[j as int]
                } else {
                    w[k]
                }) by {
                    assert(v@ == w.remove(j + 1).insert(j as int, w[j + 1]));
                }
            }
        }
        proof {
            lemma_insert_at(x, sorted_prefix, j as int);
            assert(recs_view(v@.take(i as int + 1)) =~= sorted_prefix.take(j as int) + seq![x]
                + sorted_prefix.skip(j as int));
            assert(recs_view(old(v)@.take(i as int + 1)).drop_last() =~= recs_view(
                old(v)@.take(i as int),
            ));
            assert(old(v)@.take(i as int + 1)[i as int] == old(v)@[i as int]);
            assert(recs_view(old(v)@.take(i as int + 1)).last() == old(v)@[i as int]@);
            assert(old(v)@[i as int]@ == x);
            assert(sort_records(recs_view(old(v)@.take(i as int + 1))) == insert_sorted(
                x,
                sort_records(recs_view(old(v)@.take(i as int))),
            ));
            assert(recs_view(v@.take(i as int + 1)) == sort_records(
                recs_view(old(v)@.take(i as int + 1)),
            ));
        }
        i = i + 1;
    }
    proof {
        assert(v@.take(i as int) =~= v@);
        assert(old(v)@.take(i as int) =~= old(v)@);
    }
}

/// Decodes the raw bytes of a subtitle file and parses its records: UTF-8
/// first, then the Windows-1252 fallback, failing when neither decodes; the
/// records come back ordered by their parsed index, ties in file order, and
/// a malformed block fails the whole load with no partial result.
pub fn load_subtitles(bytes: &Vec<u8>) -> (r: Result<Vec<Subtitle>, SubError>)
    ensures
        match (r, spec_load(bytes@)) {
            (Ok(v), Ok(s)) => recs_view(v@) == s,
            (Err(e1), Err(e2)) => e1 == e2,
            _ => false,
        },
{
    let decoded = match decode_utf8(bytes) {
        Some(t) => t,
        None => match decode_win1252(bytes) {
            Some(t) => t,
            None => {
                return Err(SubError::Encoding);
            },
        },
    };
    let lines = split_lines(&decoded);
    let ghost lv = lines_view(lines@);
    let mut recs: Vec<Subtitle> = Vec::new();
    let mut idx_slot: Option<usize> = None;
    let mut tim_slot: Option<usize> = None;
    let mut text_buf: Vec<u8> = Vec::new();
    let mut i: usize = 0;
    proof {
        assert(lv.skip(0) =~= lv);
        assert(recs_view(recs@) =~= Seq::<SubRec>::empty());
    }
    while i < lines.len()
        invariant
            i <= lv.len(),
            lines_view(lines@) == lv,
            spec_load(bytes@) == (match run_lines(lv, None, None, Seq::empty(), Seq::empty()) {
                Ok(rs) => Ok::<Seq<SubRec>, SubError>(sort_records(rs)),
                Err(e) => Err::<Seq<SubRec>, SubError>(e),
            }),
            match idx_slot {
                Some(k) => k < lv.len(),
                None => true,
            },
            match tim_slot {
                Some(k) => k < lv.len(),
                None => true,
            },
            run_lines(
                lv.skip(i as int),
                slot_view(lv, idx_slot),
                slot_view(lv, tim_slot),
                text_buf@,
                recs_view(recs@),
            ) == run_lines(lv, None, None, Seq::empty(), Seq::empty()),
        decreases lv.len() - i,
    {
        proof {
            assert(lv.skip(i as int)[0] == lv[i as int]);
            assert(lv.skip(i as int).skip(1) =~= lv.skip(i as int + 1));
            assert(lv[i as int] == lines@[i as int]@);
        }
        let ghost t0 = text_buf@;
        let line = &lines[i];
        if line.len() != 0 {
            if idx_slot.is_none() {
                idx_slot = Some(i);
                proof {
                    assert(slot_view(lv, idx_slot) == Some(lv[i as int]));
                    assert(run_lines(
                        lv.skip(i as int),
                        None,
                        slot_view(lv, tim_slot),
                        t0,
                        recs_view(recs@),
                    ) == run_lines(
                        lv.skip(i as int + 1),
                        Some(lv[i as int]),
                        slot_view(lv, tim_slot),
                        t0,
                        recs_view(recs@),
                    ));
                }
            } else if tim_slot.is_none() {
                tim_slot = Some(i);
                proof {
                    assert(slot_view(lv, tim_slot) == Some(lv[i as int]));
                    assert(run_lines(
                        lv.skip(i as int),
                        slot_view(lv, idx_slot),
                        None,
                        t0,
                        recs_view(recs@),
                    ) == run_lines(
                        lv.skip(i as int + 1),
                        slot_view(lv, idx_slot),
                        Some(lv[i as int]),
                        t0,
                        recs_view(recs@),
                    ));
                }
            } else {
                if text_buf.len() > 0 {
                    text_buf.push(10);
                    push_all(&mut text_buf, line.as_slice());
                    proof {
                        assert(text_buf@ =~= t0 + seq![10u8] + line@);
                    }
                } else {
                    push_all(&mut text_buf, line.as_slice());
                    proof {
                        assert(text_buf@ =~= line@);
                    }
                }
            }
        } else {
            let ik = match idx_slot {
                Some(k) => k,
                None => {
                    return Err(SubError::Format);
                },
            };
            let tk = match tim_slot {
                Some(k) => k,
                None => {
                    return Err(SubError::Format);
                },
            };
            let text = text_buf;
            text_buf = Vec::new();
            let rec = match emit_exec(&lines[ik], &lines[tk], text) {
                Ok(rc) => rc,
                Err(e) => {
                    return Err(e);
                },
            };
            proof {
                assert(lv[ik as int] == lines@[ik as int]@);
                assert(lv[tk as int] == lines@[tk as int]@);
            }
            let ghost racc = recs_view(recs@);
            recs.push(rec);
            idx_slot = None;
            tim_slot = None;
            proof {
                assert(recs_view(recs@) =~= racc.push(rec@));
                assert(text_buf@ == Seq::<u8>::empty());
                assert(emit_record(lv[ik as int], lv[tk as int], t0) == Some(rec@));
                assert(run_lines(
                    lv.skip(i as int),
                    Some(lv[ik as int]),
                    Some(lv[tk as int]),
                    t0,
                    racc,
                ) == run_lines(lv.skip(i as int + 1), None, None, Seq::empty(), racc.push(rec@)));
            }
        }
        i = i + 1;
    }
    proof {
        assert(lv.skip(i as int) =~= Seq::<Seq<u8>>::empty());
    }
    sort_subtitles(&mut recs);
    Ok(recs)
}

} // verus!
