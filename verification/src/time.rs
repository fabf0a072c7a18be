use vstd::prelude::*;
use vstd::string::StringExecFns;
use vstd::string::StringSliceAdditionalSpecFns;
use crate::digits::{digit_byte, digit_char, dec_bytes, dec_chars, push_digit_char,
    push_dec_chars, push_dec_bytes};
use crate::errors::SubError;

verus! {

/// A time point with millisecond resolution, the time-code of one record.
#[derive(Clone, Copy, PartialEq, Eq, Structural, Debug)]
pub struct MovieTime {
    pub mili: u32,
}

/// True of an ASCII decimal digit byte.
pub open spec fn is_digit_byte(b: u8) -> bool {
    48 <= b <= 57
}

/// The value of an ASCII decimal digit byte.
pub open spec fn digit_val(b: u8) -> int {
    b - 48
}

/// The hour field of a time value in milliseconds.
pub open spec fn tc_hours(ms: int) -> int {
    ms / 3600000
}

/// The minute field of a time value in milliseconds.
pub open spec fn tc_minutes(ms: int) -> int {
    (ms / 60000) % 60
}

/// The second field of a time value in milliseconds.
pub open spec fn tc_seconds(ms: int) -> int {
    (ms / 1000) % 60
}

/// The millisecond field of a time value in milliseconds.
pub open spec fn tc_millis(ms: int) -> int {
    ms % 1000
}

/// A two-digit decimal field, zero-padded.
pub open spec fn two_digit_bytes(n: int) -> Seq<u8> {
    seq![digit_byte(n / 10), digit_byte(n % 10)]
}

/// A number zero-padded to at least two decimal digits; wider numbers keep
/// all their digits.
pub open spec fn pad2_bytes(n: int) -> Seq<u8> {
    if n < 10 {
        seq![digit_byte(0), digit_byte(n)]
    } else {
        dec_bytes(n)
    }
}

/// The canonical `HH:MM:SS,mmm` text of a time value, as bytes; an hour
/// count above 99 keeps all its digits rather than being truncated.
pub open spec fn render_tc_bytes(ms: int) -> Seq<u8> {
    pad2_bytes(tc_hours(ms)) + seq![58u8] + two_digit_bytes(tc_minutes(ms)) + seq![58u8]
        + two_digit_bytes(tc_seconds(ms)) + seq![44u8] + seq![
        digit_byte(tc_millis(ms) / 100),
        digit_byte((tc_millis(ms) / 10) % 10),
        digit_byte(tc_millis(ms) % 10),
    ]
}

/// A two-digit decimal field, zero-padded, as characters.
pub open spec fn two_digit_chars(n: int) -> Seq<char> {
    seq![digit_char(n / 10), digit_char(n % 10)]
}

/// A number zero-padded to at least two decimal digit characters.
pub open spec fn pad2_chars(n: int) -> Seq<char> {
    if n < 10 {
        seq![digit_char(0), digit_char(n)]
    } else {
        dec_chars(n)
    }
}

/// The canonical `HH:MM:SS,mmm` text of a time value, as characters.
pub open spec fn render_tc_chars(ms: int) -> Seq<char> {
    pad2_chars(tc_hours(ms)) + seq![':'] + two_digit_chars(tc_minutes(ms)) + seq![':']
        + two_digit_chars(tc_seconds(ms)) + seq![','] + seq![
        digit_char(tc_millis(ms) / 100),
        digit_char((tc_millis(ms) / 10) % 10),
        digit_char(tc_millis(ms) % 10),
    ]
}

/// True when a timing field holds decimal digits at every fixed offset that
/// the format reads: hours at 0..2, minutes at 3..5, seconds at 6..8 and
/// milliseconds at 9..12. Bytes between and beyond the fields are ignored.
pub open spec fn tc_fields_ok(b: Seq<u8>) -> bool {
    &&& b.len() >= 12
    &&& is_digit_byte(b[0])
    &&& is_digit_byte(b[1])
    &&& is_digit_byte(b[3])
    &&& is_digit_byte(b[4])
    &&& is_digit_byte(b[6])
    &&& is_digit_byte(b[7])
    &&& is_digit_byte(b[9])
    &&& is_digit_byte(b[10])
    &&& is_digit_byte(b[11])
}

/// The millisecond value read from the fixed offsets of a timing field.
pub open spec fn tc_value(b: Seq<u8>) -> int {
    100 * digit_val(b[9]) + 10 * digit_val(b[10]) + digit_val(b[11]) + 1000 * (10 * digit_val(b[6])
        + digit_val(b[7]) + 60 * (10 * digit_val(b[3]) + digit_val(b[4]) + 60 * (10 * digit_val(
        b[0],
    ) + digit_val(b[1]))))
}

/// What parsing a timing field returns: the value at the fixed offsets, or a
/// format error when the field is too short or a read offset is not a digit.
pub open spec fn parse_tc(b: Seq<u8>) -> Result<MovieTime, SubError> {
    if tc_fields_ok(b) {
        Ok(MovieTime { mili: tc_value(b) as u32 })
    } else {
        Err(SubError::Format)
    }
}

/// Reads the decimal digit at offset i, if there is one.
fn digit_at(b: &[u8], i: usize) -> (r: Option<u32>)
    requires
        i < b@.len(),
    ensures
        r is Some <==> is_digit_byte(b@[i as int]),
        r matches Some(v) ==> v == digit_val(b@[i as int]) && v <= 9,
{
    let c = b[i];
    if 48 <= c && c <= 57 {
        Some((c - 48) as u32)
    } else {
        None
    }
}

/// Parses the `HH:MM:SS,mmm` fields found at the fixed byte offsets of a
/// timing field.
pub fn timecode_from_bytes(b: &[u8]) -> (r: Result<MovieTime, SubError>)
    ensures
        r == parse_tc(b@),
{
    if b.len() < 12 {
        return Err(SubError::Format);
    }
    let h = match (digit_at(b, 0), digit_at(b, 1)) {
        (Some(a), Some(c)) => 10 * a + c,
        _ => { return Err(SubError::Format); },
    };
    let m = match (digit_at(b, 3), digit_at(b, 4)) {
        (Some(a), Some(c)) => 10 * a + c,
        _ => { return Err(SubError::Format); },
    };
    let s = match (digit_at(b, 6), digit_at(b, 7)) {
        (Some(a), Some(c)) => 10 * a + c,
        _ => { return Err(SubError::Format); },
    };
    let r = match (digit_at(b, 9), digit_at(b, 10), digit_at(b, 11)) {
        (Some(a), Some(c), Some(d)) => 100 * a + 10 * c + d,
        _ => { return Err(SubError::Format); },
    };
    Ok(MovieTime { mili: r + 1000 * (s + 60 * (m + 60 * h)) })
}

impl MovieTime {
    /// Parses the fixed-offset `HH:MM:SS,mmm` fields from the byte text of a
    /// timing field; offsets index the UTF-8 bytes, as the format is ASCII.
    pub fn from_str(timming: &str) -> (r: Result<MovieTime, SubError>)
        ensures
            r == parse_tc(timming.spec_bytes()),
    {
        timecode_from_bytes(timming.as_bytes())
    }

    /// Renders `HH:MM:SS,mmm`, each field zero-padded to its fixed width;
    /// an hour count above 99 is printed in full.
    pub fn to_string(&self) -> (r: String)
        ensures
            r@ == render_tc_chars(self.mili as int),
    {
        let ms = self.mili;
        let h = ms / 3600000;
        let m = (ms / 60000) % 60;
        let s = (ms / 1000) % 60;
        let r = ms % 1000;
        let mut out = String::new();
        if h < 10 {
            push_digit_char(&mut out, 0);
            push_digit_char(&mut out, h as u64);
        } else {
            push_dec_chars(&mut out, h as u64);
        }
        proof {
            reveal_strlit(":");
            assert((":")@ =~= seq![':']);
            reveal_strlit(",");
            assert((",")@ =~= seq![',']);
        }
        out.append(":");
        push_digit_char(&mut out, (m / 10) as u64);
        push_digit_char(&mut out, (m % 10) as u64);
        out.append(":");
        push_digit_char(&mut out, (s / 10) as u64);
        push_digit_char(&mut out, (s % 10) as u64);
        out.append(",");
        push_digit_char(&mut out, (r / 100) as u64);
        push_digit_char(&mut out, ((r / 10) % 10) as u64);
        push_digit_char(&mut out, (r % 10) as u64);
        proof {
            assert(out@ =~= render_tc_chars(self.mili as int));
        }
        out
    }
}

proof fn lemma_pad2_two(n: int)
    requires
        0 <= n <= 99,
    ensures
        pad2_bytes(n) =~= seq![digit_byte(n / 10), digit_byte(n % 10)],
        pad2_chars(n) =~= seq![digit_char(n / 10), digit_char(n % 10)],
{
    if n >= 10 {
        assert(n / 10 < 10);
        assert(dec_bytes(n / 10) =~= seq![digit_byte(n / 10)]);
        assert(dec_chars(n / 10) =~= seq![digit_char(n / 10)]);
    }
}

proof fn lemma_field_bounds(m: int)
    requires
        0 <= m <= 359999999,
    ensures
        0 <= tc_hours(m) <= 99,
        0 <= tc_minutes(m) < 60,
        0 <= tc_seconds(m) < 60,
        0 <= tc_millis(m) < 1000,
{
    vstd::arithmetic::div_mod::lemma_div_pos_is_pos(m, 3600000);
    vstd::arithmetic::div_mod::lemma_div_pos_is_pos(m, 60000);
    vstd::arithmetic::div_mod::lemma_div_pos_is_pos(m, 1000);
    vstd::arithmetic::div_mod::lemma_fundamental_div_mod(m, 3600000);
    assert(tc_hours(m) <= 99) by (nonlinear_arith)
        requires
            3600000 * tc_hours(m) + m % 3600000 == m,
            0 <= m % 3600000,
            m <= 359999999,
            0 <= tc_hours(m),
    ;
    vstd::arithmetic::div_mod::lemma_mod_bound(m / 60000, 60);
    vstd::arithmetic::div_mod::lemma_mod_bound(m / 1000, 60);
    vstd::arithmetic::div_mod::lemma_mod_bound(m, 1000);
}

proof fn lemma_recompose(m: int)
    requires
        0 <= m,
    ensures
        tc_millis(m) + 1000 * (tc_seconds(m) + 60 * (tc_minutes(m) + 60 * tc_hours(m))) == m,
{
    vstd::arithmetic::div_mod::lemma_fundamental_div_mod(m, 1000);
    vstd::arithmetic::div_mod::lemma_fundamental_div_mod(m / 1000, 60);
    vstd::arithmetic::div_mod::lemma_div_denominator(m, 1000, 60);
    vstd::arithmetic::div_mod::lemma_fundamental_div_mod(m / 60000, 60);
    vstd::arithmetic::div_mod::lemma_div_denominator(m, 60000, 60);
}

proof fn lemma_recompose_three(r: int)
    requires
        0 <= r < 1000,
    ensures
        100 * (r / 100) + 10 * ((r / 10) % 10) + r % 10 == r,
{
    vstd::arithmetic::div_mod::lemma_fundamental_div_mod(r, 10);
    vstd::arithmetic::div_mod::lemma_fundamental_div_mod(r / 10, 10);
    vstd::arithmetic::div_mod::lemma_div_denominator(r, 10, 10);
}

/// The explicit twelve-element forms of the two renderings, valid while the
/// hour field is at most two digits wide.
proof fn lemma_render_explicit(m: int)
    requires
        0 <= m <= 359999999,
    ensures
        render_tc_bytes(m) =~= seq![
            digit_byte(tc_hours(m) / 10),
            digit_byte(tc_hours(m) % 10),
            58u8,
            digit_byte(tc_minutes(m) / 10),
            digit_byte(tc_minutes(m) % 10),
            58u8,
            digit_byte(tc_seconds(m) / 10),
            digit_byte(tc_seconds(m) % 10),
            44u8,
            digit_byte(tc_millis(m) / 100),
            digit_byte((tc_millis(m) / 10) % 10),
            digit_byte(tc_millis(m) % 10),
        ],
        render_tc_chars(m) =~= seq![
            digit_char(tc_hours(m) / 10),
            digit_char(tc_hours(m) % 10),
            ':',
            digit_char(tc_minutes(m) / 10),
            digit_char(tc_minutes(m) % 10),
            ':',
            digit_char(tc_seconds(m) / 10),
            digit_char(tc_seconds(m) % 10),
            ',',
            digit_char(tc_millis(m) / 100),
            digit_char((tc_millis(m) / 10) % 10),
            digit_char(tc_millis(m) % 10),
        ],
{
    lemma_field_bounds(m);
    lemma_pad2_two(tc_hours(m));
}

proof fn lemma_digit_byte_val(d: int)
    requires
        0 <= d <= 9,
    ensures
        is_digit_byte(digit_byte(d)),
        digit_val(digit_byte(d)) == d,
{
}

proof fn lemma_digit_char_byte(d: int)
    requires
        0 <= d <= 9,
    ensures
        '\0' <= digit_char(d) <= '\u{7f}',
        digit_char(d) as u8 == digit_byte(d),
{
}

proof fn lemma_parse_twelve(a: int, b: int, c: int, d: int, e: int, f: int, g: int, p: int, q: int)
    requires
        0 <= a <= 9,
        0 <= b <= 9,
        0 <= c <= 9,
        0 <= d <= 9,
        0 <= e <= 9,
        0 <= f <= 9,
        0 <= g <= 9,
        0 <= p <= 9,
        0 <= q <= 9,
    ensures
        tc_fields_ok(
            seq![
                digit_byte(a),
                digit_byte(b),
                58u8,
                digit_byte(c),
                digit_byte(d),
                58u8,
                digit_byte(e),
                digit_byte(f),
                44u8,
                digit_byte(g),
                digit_byte(p),
                digit_byte(q),
            ],
        ),
        tc_value(
            seq![
                digit_byte(a),
                digit_byte(b),
                58u8,
                digit_byte(c),
                digit_byte(d),
                58u8,
                digit_byte(e),
                digit_byte(f),
                44u8,
                digit_byte(g),
                digit_byte(p),
                digit_byte(q),
            ],
        ) == 100 * g + 10 * p + q + 1000 * (10 * e + f + 60 * (10 * c + d + 60 * (10 * a + b))),
{
    lemma_digit_byte_val(a);
    lemma_digit_byte_val(b);
    lemma_digit_byte_val(c);
    lemma_digit_byte_val(d);
    lemma_digit_byte_val(e);
    lemma_digit_byte_val(f);
    lemma_digit_byte_val(g);
    lemma_digit_byte_val(p);
    lemma_digit_byte_val(q);
}

proof fn lemma_encode_twelve(a: int, b: int, c: int, d: int, e: int, f: int, g: int, p: int, q: int)
    requires
        0 <= a <= 9,
        0 <= b <= 9,
        0 <= c <= 9,
        0 <= d <= 9,
        0 <= e <= 9,
        0 <= f <= 9,
        0 <= g <= 9,
        0 <= p <= 9,
        0 <= q <= 9,
    ensures
        vstd::utf8::encode_utf8(
            seq![
                digit_char(a),
                digit_char(b),
                ':',
                digit_char(c),
                digit_char(d),
                ':',
                digit_char(e),
                digit_char(f),
                ',',
                digit_char(g),
                digit_char(p),
                digit_char(q),
            ],
        ) == seq![
            digit_byte(a),
            digit_byte(b),
            58u8,
            digit_byte(c),
            digit_byte(d),
            58u8,
            digit_byte(e),
            digit_byte(f),
            44u8,
            digit_byte(g),
            digit_byte(p),
            digit_byte(q),
        ],
{
    lemma_digit_char_byte(a);
    lemma_digit_char_byte(b);
    lemma_digit_char_byte(c);
    lemma_digit_char_byte(d);
    lemma_digit_char_byte(e);
    lemma_digit_char_byte(f);
    lemma_digit_char_byte(g);
    lemma_digit_char_byte(p);
    lemma_digit_char_byte(q);
    let cs = seq![
        digit_char(a),
        digit_char(b),
        ':',
        digit_char(c),
        digit_char(d),
        ':',
        digit_char(e),
        digit_char(f),
        ',',
        digit_char(g),
        digit_char(p),
        digit_char(q),
    ];
    assert(vstd::utf8::is_ascii_chars(cs));
    vstd::utf8::is_ascii_chars_encode_utf8(cs);
    assert(vstd::utf8::encode_utf8(cs) =~= seq![
        digit_byte(a),
        digit_byte(b),
        58u8,
        digit_byte(c),
        digit_byte(d),
        58u8,
        digit_byte(e),
        digit_byte(f),
        44u8,
        digit_byte(g),
        digit_byte(p),
        digit_byte(q),
    ]);
}

proof fn lemma_digit_splits(m: int)
    requires
        0 <= m <= 359999999,
    ensures
        0 <= tc_hours(m) / 10 <= 9 && 0 <= tc_hours(m) % 10 <= 9,
        0 <= tc_minutes(m) / 10 <= 9 && 0 <= tc_minutes(m) % 10 <= 9,
        0 <= tc_seconds(m) / 10 <= 9 && 0 <= tc_seconds(m) % 10 <= 9,
        0 <= tc_millis(m) / 100 <= 9 && 0 <= (tc_millis(m) / 10) % 10 <= 9 && 0 <= tc_millis(m)
            % 10 <= 9,
        100 * (tc_millis(m) / 100) + 10 * ((tc_millis(m) / 10) % 10) + tc_millis(m) % 10
            == tc_millis(m),
        10 * (tc_hours(m) / 10) + tc_hours(m) % 10 == tc_hours(m),
        10 * (tc_minutes(m) / 10) + tc_minutes(m) % 10 == tc_minutes(m),
        10 * (tc_seconds(m) / 10) + tc_seconds(m) % 10 == tc_seconds(m),
{
    lemma_field_bounds(m);
    let h = tc_hours(m);
    let mn = tc_minutes(m);
    let s = tc_seconds(m);
    let r = tc_millis(m);
    vstd::arithmetic::div_mod::lemma_mod_bound(h, 10);
    vstd::arithmetic::div_mod::lemma_mod_bound(mn, 10);
    vstd::arithmetic::div_mod::lemma_mod_bound(s, 10);
    vstd::arithmetic::div_mod::lemma_mod_bound(r, 10);
    vstd::arithmetic::div_mod::lemma_mod_bound(r / 10, 10);
    vstd::arithmetic::div_mod::lemma_fundamental_div_mod(h, 10);
    vstd::arithmetic::div_mod::lemma_fundamental_div_mod(mn, 10);
    vstd::arithmetic::div_mod::lemma_fundamental_div_mod(s, 10);
    lemma_recompose_three(r);
}

/// Round trip: a time value within the two-digit-hour range renders to
/// `HH:MM:SS,mmm` text that parses back to the very same value, whether the
/// text is taken as bytes or as the characters that `to_string` returns.
pub proof fn lemma_timecode_round_trip(ms: u32)
    requires
        ms <= 359999999,
    ensures
        parse_tc(render_tc_bytes(ms as int)) == Ok::<MovieTime, SubError>(MovieTime { mili: ms }),
        parse_tc(vstd::utf8::encode_utf8(render_tc_chars(ms as int))) == Ok::<
            MovieTime,
            SubError,
        >(MovieTime { mili: ms }),
{
    let m = ms as int;
    let h = tc_hours(m);
    let mn = tc_minutes(m);
    let s = tc_seconds(m);
    let r = tc_millis(m);
    lemma_digit_splits(m);
    lemma_render_explicit(m);
    lemma_parse_twelve(
        h / 10,
        h % 10,
        mn / 10,
        mn % 10,
        s / 10,
        s % 10,
        r / 100,
        (r / 10) % 10,
        r % 10,
    );
    lemma_encode_twelve(
        h / 10,
        h % 10,
        mn / 10,
        mn % 10,
        s / 10,
        s % 10,
        r / 100,
        (r / 10) % 10,
        r % 10,
    );
    assert(tc_value(render_tc_bytes(m)) == m) by {
        lemma_recompose(m);
    }
    assert(parse_tc(render_tc_bytes(m)) == Ok::<MovieTime, SubError>(MovieTime { mili: ms }));
}

/// Appends the `HH:MM:SS,mmm` byte text of a time code to out.
pub fn push_timecode_bytes(out: &mut Vec<u8>, t: &MovieTime)
    ensures
        final(out)@ == old(out)@ + render_tc_bytes(t.mili as int),
{
    let ms = t.mili;
    let h = ms / 3600000;
    let m = (ms / 60000) % 60;
    let s = (ms / 1000) % 60;
    let r = ms % 1000;
    if h < 10 {
        out.push(48);
        out.push(48 + h as u8);
    } else {
        push_dec_bytes(out, h as u128);
    }
    out.push(58);
    out.push(48 + (m / 10) as u8);
    out.push(48 + (m % 10) as u8);
    out.push(58);
    out.push(48 + (s / 10) as u8);
    out.push(48 + (s % 10) as u8);
    out.push(44);
    out.push(48 + (r / 100) as u8);
    out.push(48 + ((r / 10) % 10) as u8);
    out.push(48 + (r % 10) as u8);
    proof {
        assert(final(out)@ =~= old(out)@ + render_tc_bytes(t.mili as int));
    }
}

} // verus!
