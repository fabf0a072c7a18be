use vstd::prelude::*;
use crate::bytes_util::{sub_bytes, push_all};
use crate::pattern::{Pattern, match_ranges, ranges_wf, find_ranges};

verus! {

/// One piece of a partitioned text: its bytes, and whether the pattern
/// removes it.
pub struct Span {
    pub text: Vec<u8>,
    pub removed: bool,
}

/// The spec-level form of a span.
pub ghost struct SpanV {
    pub text: Seq<u8>,
    pub removed: bool,
}

impl View for Span {
    type V = SpanV;

    open spec fn view(&self) -> SpanV {
        SpanV { text: self.text@, removed: self.removed }
    }
}

/// The views of a span vector.
pub open spec fn spans_view(s: Seq<Span>) -> Seq<SpanV> {
    s.map_values(|x: Span| x@)
}

/// The span partition of text against the given match ranges, read from
/// offset pos on: a kept piece before every match (possibly empty), the
/// match itself as a removed piece, and one trailing kept piece (possibly
/// empty) after the final match.
pub open spec fn seg_spans(text: Seq<u8>, rs: Seq<(int, int)>, pos: int) -> Seq<SpanV>
    decreases rs.len(),
{
    if rs.len() == 0 {
        seq![SpanV { text: text.subrange(pos, text.len() as int), removed: false }]
    } else {
        seq![
            SpanV { text: text.subrange(pos, rs[0].0), removed: false },
            SpanV { text: text.subrange(rs[0].0, rs[0].1), removed: true },
        ] + seg_spans(text, rs.skip(1), rs[0].1)
    }
}

/// The concatenation of the bytes of all spans.
pub open spec fn spans_bytes(s: Seq<SpanV>) -> Seq<u8>
    decreases s.len(),
{
    if s.len() == 0 {
        Seq::empty()
    } else {
        s[0].text + spans_bytes(s.skip(1))
    }
}

/// The concatenation of the kept spans' bytes alone: the text that survives
/// removal.
pub open spec fn kept_bytes(s: Seq<SpanV>) -> Seq<u8>
    decreases s.len(),
{
    if s.len() == 0 {
        Seq::empty()
    } else if s[0].removed {
        kept_bytes(s.skip(1))
    } else {
        s[0].text + kept_bytes(s.skip(1))
    }
}

/// Partition law: against well-formed ranges, the spans read from pos on
/// concatenate back to exactly the text from pos to its end: the partition
/// has no gap and no overlap.
pub proof fn lemma_partition(text: Seq<u8>, rs: Seq<(int, int)>, pos: int)
    requires
        ranges_wf(rs, text.len() as int),
        0 <= pos <= text.len(),
        rs.len() > 0 ==> pos <= rs[0].0,
    ensures
        spans_bytes(seg_spans(text, rs, pos)) == text.subrange(pos, text.len() as int),
    decreases rs.len(),
{
    if rs.len() == 0 {
        let s = seg_spans(text, rs, pos);
        assert(s == seq![SpanV { text: text.subrange(pos, text.len() as int), removed: false }]);
        assert(s.skip(1) =~= Seq::<SpanV>::empty());
        assert(spans_bytes(s.skip(1)) == Seq::<u8>::empty());
        assert(s[0].text == text.subrange(pos, text.len() as int));
        assert(spans_bytes(s) == s[0].text + spans_bytes(s.skip(1)));
        assert(spans_bytes(s) =~= text.subrange(pos, text.len() as int));
    } else {
        let a = rs[0].0;
        let b = rs[0].1;
        let tail = rs.skip(1);
        assert(ranges_wf(tail, text.len() as int)) by {
            assert forall|i: int| 0 <= i < tail.len() implies 0 <= #[trigger] tail[i].0
                <= tail[i].1 <= text.len() by {
                assert(tail[i] == rs[i + 1]);
            }
            assert forall|i: int| 0 < i < tail.len() implies tail[i - 1].1 <= #[trigger] tail[i].0
                by {
                assert(tail[i] == rs[i + 1]);
                assert(tail[i - 1] == rs[i]);
            }
        }
        assert(tail.len() > 0 ==> b <= tail[0].0) by {
            if tail.len() > 0 {
                assert(tail[0] == rs[1]);
            }
        }
        lemma_partition(text, tail, b);
        let s = seg_spans(text, rs, pos);
        let two = seq![
            SpanV { text: text.subrange(pos, a), removed: false },
            SpanV { text: text.subrange(a, b), removed: true },
        ];
        assert(s == two + seg_spans(text, tail, b));
        let mid = seq![SpanV { text: text.subrange(a, b), removed: true }] + seg_spans(
            text,
            tail,
            b,
        );
        assert(s.skip(1) =~= mid);
        assert(mid.skip(1) =~= seg_spans(text, tail, b));
        assert(spans_bytes(mid) == mid[0].text + spans_bytes(mid.skip(1)));
        assert(mid[0].text == text.subrange(a, b));
        assert(spans_bytes(s) == s[0].text + spans_bytes(s.skip(1)));
        assert(s[0].text == text.subrange(pos, a));
        assert(spans_bytes(s) == text.subrange(pos, a) + (text.subrange(a, b) + text.subrange(
            b,
            text.len() as int,
        )));
        assert(text.subrange(pos, a) + (text.subrange(a, b) + text.subrange(b, text.len() as int))
            =~= text.subrange(pos, text.len() as int));
    }
}

/// Partitions text against a compiled pattern into ordered kept and removed
/// spans. The spans concatenate back to the whole text; the flag reports
/// whether any match occurred; with no match the partition is exactly one
/// kept span holding the whole text.
pub fn segment(p: &Pattern, text: &Vec<u8>) -> (r: (Vec<Span>, bool))
    ensures
        spans_view(r.0@) == seg_spans(text@, match_ranges(p.src(), text@), 0),
        spans_bytes(spans_view(r.0@)) == text@,
        r.1 == (match_ranges(p.src(), text@).len() > 0),
        match_ranges(p.src(), text@).len() == 0 ==> r.0@.len() == 1 && r.0@[0]@.text == text@
            && !r.0@[0]@.removed,
{
    let ranges = find_ranges(p, text.as_slice());
    let ghost rsv = match_ranges(p.src(), text@);
    let mut spans: Vec<Span> = Vec::new();
    let mut pos: usize = 0;
    let mut i: usize = 0;
    proof {
        assert(rsv.skip(0) =~= rsv);
        assert(spans_view(spans@) =~= Seq::<SpanV>::empty());
        assert(spans_view(spans@) + seg_spans(text@, rsv, 0) =~= seg_spans(text@, rsv, 0));
    }
    while i < ranges.len()
        invariant
            ranges@.map_values(|pr: (usize, usize)| (pr.0 as int, pr.1 as int)) == rsv,
            ranges_wf(rsv, text@.len() as int),
            i <= ranges@.len(),
            pos <= text@.len(),
            i < rsv.len() ==> pos <= rsv[i as int].0,
            spans_view(spans@) + seg_spans(text@, rsv.skip(i as int), pos as int) == seg_spans(
                text@,
                rsv,
                0,
            ),
        decreases ranges@.len() - i,
    {
        let a = ranges[i].0;
        let b = ranges[i].1;
        proof {
            assert(rsv[i as int] == (a as int, b as int));
        }
        let kept = sub_bytes(text.as_slice(), pos, a);
        let gone = sub_bytes(text.as_slice(), a, b);
        spans.push(Span { text: kept, removed: false });
        spans.push(Span { text: gone, removed: true });
        proof {
            let rest = rsv.skip(i as int);
            assert(rest[0] == rsv[i as int]);
            assert(rest.skip(1) =~= rsv.skip(i as int + 1));
            assert(seg_spans(text@, rest, pos as int) == seq![
                SpanV { text: text@.subrange(pos as int, a as int), removed: false },
                SpanV { text: text@.subrange(a as int, b as int), removed: true },
            ] + seg_spans(text@, rsv.skip(i as int + 1), b as int));
            assert(spans_view(spans@) =~= spans_view(spans@.subrange(0, spans@.len() - 2)) + seq![
                SpanV { text: text@.subrange(pos as int, a as int), removed: false },
                SpanV { text: text@.subrange(a as int, b as int), removed: true },
            ]);
            if i + 1 < rsv.len() {
                assert(rsv[i as int + 1].0 >= b);
            }
            assert(spans_view(spans@) + seg_spans(text@, rsv.skip(i as int + 1), b as int)
                =~= (spans_view(spans@.subrange(0, spans@.len() - 2)) + seg_spans(
                text@,
                rsv.skip(i as int),
                pos as int,
            )));
        }
        pos = b;
        i = i + 1;
    }
    let tail = sub_bytes(text.as_slice(), pos, text.len());
    spans.push(Span { text: tail, removed: false });
    proof {
        assert(rsv.skip(i as int) =~= Seq::<(int, int)>::empty());
        assert(seg_spans(text@, rsv.skip(i as int), pos as int) == seq![
            SpanV { text: text@.subrange(pos as int, text@.len() as int), removed: false },
        ]);
        assert(spans_view(spans@) =~= spans_view(spans@.subrange(0, spans@.len() - 1)) + seq![
            SpanV { text: text@.subrange(pos as int, text@.len() as int), removed: false },
        ]);
        assert(spans_view(spans@) =~= seg_spans(text@, rsv, 0));
        lemma_partition(text@, rsv, 0);
        assert(text@.subrange(0, text@.len() as int) =~= text@);
        if rsv.len() == 0 {
            assert(spans_view(spans@).len() == 1);
            assert(spans_view(spans@)[0] == seg_spans(text@, rsv, 0)[0]);
        }
    }
    (spans, ranges.len() > 0)
}

/// Concatenates the kept spans of a partition: the text that survives
/// removal.
pub fn keep_spans(spans: &Vec<Span>) -> (r: Vec<u8>)
    ensures
        r@ == kept_bytes(spans_view(spans@)),
{
    let mut r: Vec<u8> = Vec::new();
    let mut i: usize = 0;
    proof {
        assert(spans_view(spans@).skip(0) =~= spans_view(spans@));
        assert(r@ + kept_bytes(spans_view(spans@)) =~= kept_bytes(spans_view(spans@)));
    }
    while i < spans.len()
        invariant
            i <= spans@.len(),
            r@ + kept_bytes(spans_view(spans@).skip(i as int)) == kept_bytes(spans_view(spans@)),
        decreases spans@.len() - i,
    {
        proof {
            let rest = spans_view(spans@).skip(i as int);
            assert(rest[0] == spans@[i as int]@);
            assert(rest.skip(1) =~= spans_view(spans@).skip(i as int + 1));
        }
        if !spans[i].removed {
            let piece = &spans[i].text;
            push_all(&mut r, piece.as_slice());
        }
        i = i + 1;
    }
    proof {
        assert(spans_view(spans@).skip(i as int) =~= Seq::<SpanV>::empty());
    }
    r
}

} // verus!
