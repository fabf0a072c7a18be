use vstd::prelude::*;
use crate::bytes_util::push_all;
use crate::digits::{dec_bytes, push_dec_bytes};
use crate::pattern::{Pattern, match_ranges};
use crate::segment::{segment, keep_spans, seg_spans, kept_bytes};
use crate::subs::{Subtitle, SubRec, recs_view};
use crate::time::{MovieTime, render_tc_bytes, push_timecode_bytes};

verus! {

/// The text of a record that survives removal: the kept pieces of its span
/// partition, concatenated.
pub open spec fn filtered_text(pat: Seq<char>, text: Seq<u8>) -> Seq<u8> {
    kept_bytes(seg_spans(text, match_ranges(pat, text), 0))
}

/// The serialized text of the records from recs on, numbering survivors
/// upward from next: a record whose filtered text is empty is dropped
/// without a block and without a number; every other record becomes one
/// block of its fresh number, its original timing line, and its filtered
/// text, closed by a blank line.
pub open spec fn export_bytes(recs: Seq<SubRec>, pat: Seq<char>, next: int) -> Seq<u8>
    decreases recs.len(),
{
    if recs.len() == 0 {
        Seq::empty()
    } else {
        let kept = filtered_text(pat, recs[0].text);
        if kept.len() == 0 {
            export_bytes(recs.skip(1), pat, next)
        } else {
            dec_bytes(next) + seq![10u8] + render_tc_bytes(recs[0].start.mili as int) + seq![
                32u8,
                45u8,
                45u8,
                62u8,
                32u8,
            ] + render_tc_bytes(recs[0].stop.mili as int) + seq![10u8] + kept + seq![10u8, 10u8]
                + export_bytes(recs.skip(1), pat, next + 1)
        }
    }
}

/// Appends one serialized block: the fresh number, the timing line, the
/// filtered text, and the closing blank line.
fn push_block(out: &mut Vec<u8>, next: u128, start: &MovieTime, stop: &MovieTime, kept: &Vec<u8>)
    ensures
        final(out)@ == old(out)@ + (dec_bytes(next as int) + seq![10u8] + render_tc_bytes(
            start.mili as int,
        ) + seq![32u8, 45u8, 45u8, 62u8, 32u8] + render_tc_bytes(stop.mili as int) + seq![10u8]
            + kept@ + seq![10u8, 10u8]),
{
    push_dec_bytes(out, next);
    out.push(10);
    push_timecode_bytes(out, start);
    out.push(32);
    out.push(45);
    out.push(45);
    out.push(62);
    out.push(32);
    push_timecode_bytes(out, stop);
    out.push(10);
    push_all(out, kept.as_slice());
    out.push(10);
    out.push(10);
    proof {
        assert(out@ =~= old(out)@ + (dec_bytes(next as int) + seq![10u8] + render_tc_bytes(
            start.mili as int,
        ) + seq![32u8, 45u8, 45u8, 62u8, 32u8] + render_tc_bytes(stop.mili as int) + seq![10u8]
            + kept@ + seq![10u8, 10u8]));
    }
}

/// Serializes the surviving records against a compiled pattern: every
/// record whose text the pattern removes entirely is dropped, and the
/// survivors are renumbered contiguously from 1 with their original time
/// codes and their filtered text.
#[verifier::rlimit(60)]
pub fn export_subtitles(recs: &Vec<Subtitle>, p: &Pattern) -> (r: Vec<u8>)
    ensures
        r@ == export_bytes(recs_view(recs@), p.src(), 1),
{
    let ghost rv = recs_view(recs@);
    let mut out: Vec<u8> = Vec::new();
    let mut next: u128 = 1;
    let mut i: usize = 0;
    proof {
        assert(rv.skip(0) =~= rv);
        assert(out@ + export_bytes(rv, p.src(), 1) =~= export_bytes(rv, p.src(), 1));
    }
    while i < recs.len()
        invariant
            i <= rv.len(),
            recs_view(recs@) == rv,
            rv.len() == recs@.len(),
            1 <= next <= i + 1,
            out@ + export_bytes(rv.skip(i as int), p.src(), next as int) == export_bytes(
                rv,
                p.src(),
                1,
            ),
        decreases rv.len() - i,
    {
        proof {
            assert(rv.skip(i as int)[0] == rv[i as int]);
            assert(rv.skip(i as int).skip(1) =~= rv.skip(i as int + 1));
            assert(rv[i as int] == recs@[i as int]@);
        }
        let rec = &recs[i];
        let (spans, _had) = segment(p, &rec.text);
        let kept = keep_spans(&spans);
        proof {
            assert(kept@ == filtered_text(p.src(), rv[i as int].text));
        }
        if kept.len() > 0 {
            push_block(&mut out, next, &rec.start, &rec.stop, &kept);
            next = next + 1;
        }
        i = i + 1;
    }
    proof {
        assert(rv.skip(i as int) =~= Seq::<SubRec>::empty());
        assert(out@ =~= out@ + export_bytes(rv.skip(i as int), p.src(), next as int));
    }
    out
}

} // verus!
