//! The decoder: one self-describing value per call, consumed from a
//! byte slice at a cursor, recursively for the aggregate kinds. Its
//! central contract is completeness: wherever the input carries the
//! exact encoding of a well-formed value (one free of the verbatim
//! kind, whose encoding the decoder refuses, and of the NaN
//! sentinel, whose written form reads back as the numeric text
//! `0.0`), it returns exactly that value and consumes exactly its
//! frame.
use vstd::prelude::*;

use crate::numbers::{
    dec_i64, dec_u, is_utf8, lemma_ascii_utf8, lemma_dec_u_digits, lemma_parse_dec_i64,
    parse_i64, parse_i64_of, is_float_text_exec, is_nan_text_exec,
};
use crate::order::lt;
use crate::sorted::{
    dict_insert, dict_insert_vec, dict_of, lemma_dict_insert_sorted, lemma_dict_of_sorted,
    lemma_uniq_insert_sorted, lemma_uniq_of_sorted, uniq_insert, uniq_insert_vec, uniq_of,
};
use crate::{
    crlf, enc, enc_pairs, enc_seq, float_wf, lemma_enc_pairs_head, lemma_enc_seq_head,
    lemma_vview_pairs, lemma_vview_seq, sorted_pairs, sorted_vals, text_ok, value_wf, vview,
    vview_pairs, vview_seq, FloatView, MyFloat, ParseError, Value, ValueView, VerbatimString, CR,
    LF,
};

verus! {

broadcast use vstd::std_specs::vec::group_vec_axioms, vstd::seq::group_seq_axioms;

/// The index of the first carriage return at or after `pos`, if any.
pub open spec fn line_end(s: Seq<u8>, pos: int) -> Option<int>
    decreases s.len() - pos,
{
    if pos < 0 || pos >= s.len() {
        Option::None
    } else if s[pos] == CR {
        Option::Some(pos)
    } else {
        line_end(s, pos + 1)
    }
}

/// What reading one line at `pos` gives: the bytes before the first
/// carriage return and the position after the terminator, ended
/// prematurely by the input running out or by text that is not UTF-8.
pub open spec fn line_result(s: Seq<u8>, pos: int) -> Result<(Seq<u8>, int), ParseError> {
    match line_end(s, pos) {
        Option::Some(e) => if e + 2 > s.len() {
            Result::Err(ParseError::Incomplete)
        } else if !is_utf8(s.subrange(pos, e)) {
            Result::Err(ParseError::SimpleStringParseError)
        } else {
            Result::Ok((s.subrange(pos, e), e + 2))
        },
        Option::None => Result::Err(ParseError::Incomplete),
    }
}

/// What reading one integer line at `pos` gives.
pub open spec fn int_result(s: Seq<u8>, pos: int) -> Result<(i64, int), ParseError> {
    match line_result(s, pos) {
        Result::Ok((l, p)) => match parse_i64_of(l) {
            Option::Some(i) => Result::Ok((i, p)),
            Option::None => Result::Err(ParseError::IntegerParseError),
        },
        Result::Err(e) => Result::Err(e),
    }
}

/// The index of the first colon at or after `i`, if any.
pub open spec fn colon_at(s: Seq<u8>, i: int) -> Option<int>
    decreases s.len() - i,
{
    if i < 0 || i >= s.len() {
        Option::None
    } else if s[i] == 58 {
        Option::Some(i)
    } else {
        colon_at(s, i + 1)
    }
}

/// Free of the verbatim kind, whose length-prefixed encoding the
/// line-reading decoder refuses, and of the NaN sentinel, whose
/// written form reads back as the numeric text `0.0`.
pub open spec fn plain(v: ValueView) -> bool
    decreases v,
{
    match v {
        ValueView::VerbV(_, _) => false,
        ValueView::DblV(f) => f is RealV,
        ValueView::ArrV(a) => forall|i: int| 0 <= i < a.len() ==> plain(#[trigger] a[i]),
        ValueView::DictV(m) => forall|i: int|
            0 <= i < m.len() ==> plain(#[trigger] m[i].0) && plain(m[i].1),
        ValueView::UniqV(a) => forall|i: int| 0 <= i < a.len() ==> plain(#[trigger] a[i]),
        ValueView::PushV(a) => forall|i: int| 0 <= i < a.len() ==> plain(#[trigger] a[i]),
        _ => true,
    }
}

/// A value that decodes back from its own encoding: well formed and
/// plain.
pub open spec fn rt_ok(v: ValueView) -> bool {
    value_wf(v) && plain(v)
}

/// Every element of the row decodes back from its own encoding.
pub open spec fn rt_ok_all(vs: Seq<ValueView>) -> bool {
    forall|i: int| 0 <= i < vs.len() ==> rt_ok(#[trigger] vs[i])
}

/// Every entry of the pair row decodes back from its own encoding.
pub open spec fn rt_ok_pairs(ps: Seq<(ValueView, ValueView)>) -> bool {
    forall|i: int| 0 <= i < ps.len() ==> rt_ok(#[trigger] ps[i].0) && rt_ok(ps[i].1)
}

/// The input carries exactly the encoding of `v` at `pos`.
pub open spec fn frame_at(s: Seq<u8>, pos: int, v: ValueView) -> bool {
    0 <= pos && pos + enc(v).len() <= s.len() && s.subrange(pos, pos + enc(v).len()) == enc(v)
}

/// The input carries exactly the encodings of the row at `pos`.
pub open spec fn frames_at(s: Seq<u8>, pos: int, vs: Seq<ValueView>) -> bool {
    0 <= pos && pos + enc_seq(vs).len() <= s.len() && s.subrange(pos, pos + enc_seq(vs).len())
        == enc_seq(vs)
}

/// The input carries exactly the encodings of the pair row at `pos`.
pub open spec fn frames_at_pairs(s: Seq<u8>, pos: int, ps: Seq<(ValueView, ValueView)>) -> bool {
    0 <= pos && pos + enc_pairs(ps).len() <= s.len() && s.subrange(
        pos,
        pos + enc_pairs(ps).len(),
    ) == enc_pairs(ps)
}

/// Where a line ends: the terminator is the first carriage return.
pub proof fn lemma_line_end_props(s: Seq<u8>, pos: int)
    requires
        0 <= pos,
        line_end(s, pos) matches Option::Some(e),
    ensures
        line_end(s, pos) matches Option::Some(e) ==> pos <= e < s.len() && s[e] == CR && forall|
            i: int,
        | pos <= i < e ==> #[trigger] s[i] != CR,
    decreases s.len() - pos,
{
    if pos < s.len() && s[pos] != CR {
        lemma_line_end_props(s, pos + 1);
    }
}

/// Where a split happens: the separator is the first colon.
pub proof fn lemma_colon_props(s: Seq<u8>, pos: int)
    requires
        0 <= pos,
        colon_at(s, pos) matches Option::Some(c),
    ensures
        colon_at(s, pos) matches Option::Some(c) ==> pos <= c < s.len() && s[c] == 58 && forall|
            j: int,
        | pos <= j < c ==> #[trigger] s[j] != 58,
    decreases s.len() - pos,
{
    if pos < s.len() && s[pos] != 58 {
        lemma_colon_props(s, pos + 1);
    }
}

/// Whatever line comes back is line-safe text: the first carriage
/// return ends it, and the reader checked it for UTF-8 validity.
pub proof fn lemma_line_result_text_ok(s: Seq<u8>, pos: int)
    ensures
        match line_result(s, pos) {
            Result::Ok((l, p)) => text_ok(l),
            Result::Err(_) => true,
        },
{
    match line_end(s, pos) {
        Option::Some(e) => {
            assert(0 <= pos && pos < s.len());
            lemma_line_end_props(s, pos);
            assert forall|i: int| 0 <= i < e - pos implies #[trigger] s.subrange(
                pos,
                e,
            )[i] != CR by {
                assert(s.subrange(pos, e)[i] == s[pos + i]);
            }
        }
        Option::None => {}
    }
}

/// A line body followed by a carriage return pins the line end.
pub proof fn lemma_line_end_at(s: Seq<u8>, pos: int, e: int)
    requires
        0 <= pos <= e < s.len(),
        forall|i: int| pos <= i < e ==> #[trigger] s[i] != CR,
        s[e] == CR,
    ensures
        line_end(s, pos) == Option::Some(e),
    decreases e - pos,
{
    if pos < e {
        lemma_line_end_at(s, pos + 1, e);
    }
}

/// A colon-free prefix followed by a colon pins the first colon.
pub proof fn lemma_colon_at(s: Seq<u8>, i: int, c: int)
    requires
        0 <= i <= c < s.len(),
        forall|j: int| i <= j < c ==> #[trigger] s[j] != 58,
        s[c] == 58,
    ensures
        colon_at(s, i) == Option::Some(c),
    decreases c - i,
{
    if i < c {
        lemma_colon_at(s, i + 1, c);
    }
}

/// No colon anywhere gives no split point.
pub proof fn lemma_colon_at_none(s: Seq<u8>, i: int)
    requires
        0 <= i,
        forall|j: int| 0 <= j < s.len() ==> #[trigger] s[j] != 58,
    ensures
        colon_at(s, i) == Option::None::<int>,
    decreases s.len() - i,
{
    if i < s.len() {
        lemma_colon_at_none(s, i + 1);
    }
}

/// Every encoding is at least the tag and its line terminator long.
pub proof fn lemma_enc_min(v: ValueView)
    ensures
        enc(v).len() >= 3,
{
    match v {
        ValueView::IntV(i) => {
            if i < 0 {
                lemma_dec_u_digits((-i) as nat);
            } else {
                lemma_dec_u_digits(i as nat);
            }
        }
        ValueView::BulkV(s) => lemma_dec_u_digits(s.len()),
        ValueView::ArrV(a) => lemma_dec_u_digits(a.len()),
        ValueView::BulkErrV(s) => lemma_dec_u_digits(s.len()),
        ValueView::VerbV(e, d) => lemma_dec_u_digits((e + seq![58u8] + d).len()),
        ValueView::DictV(m) => lemma_dec_u_digits(m.len()),
        ValueView::UniqV(s) => lemma_dec_u_digits(s.len()),
        ValueView::PushV(a) => lemma_dec_u_digits(a.len()),
        _ => {}
    }
}

/// A row's encoding is at least as long as the row.
pub proof fn lemma_enc_seq_min(s: Seq<ValueView>)
    ensures
        enc_seq(s).len() >= s.len(),
    decreases s,
{
    if s.len() > 0 {
        lemma_enc_seq_min(s.drop_last());
        lemma_enc_min(s.last());
    }
}

/// A pair row's encoding is at least as long as the row.
pub proof fn lemma_enc_pairs_min(s: Seq<(ValueView, ValueView)>)
    ensures
        enc_pairs(s).len() >= s.len(),
    decreases s,
{
    if s.len() > 0 {
        lemma_enc_pairs_min(s.drop_last());
        lemma_enc_min(s.last().0);
    }
}

/// A row's encoding splits at any element boundary.
pub proof fn lemma_enc_seq_split(s: Seq<ValueView>, i: int)
    requires
        0 <= i <= s.len(),
    ensures
        enc_seq(s) == enc_seq(s.take(i)) + enc_seq(s.subrange(i, s.len() as int)),
    decreases s.len() - i,
{
    if i == s.len() {
        assert(s.take(i) =~= s);
        assert(s.subrange(i, s.len() as int) =~= Seq::<ValueView>::empty());
        assert(enc_seq(s) =~= enc_seq(s.take(i)) + enc_seq(s.subrange(i, s.len() as int)));
    } else {
        lemma_enc_seq_split(s, i + 1);
        let r = s.subrange(i, s.len() as int);
        lemma_enc_seq_head(r);
        assert(r[0] == s[i]);
        assert(r.subrange(1, r.len() as int) =~= s.subrange(i + 1, s.len() as int));
        assert(s.take(i + 1).drop_last() =~= s.take(i));
        assert(s.take(i + 1).last() == s[i]);
        assert(enc_seq(s) =~= enc_seq(s.take(i)) + enc_seq(s.subrange(i, s.len() as int)));
    }
}

/// A pair row's encoding splits at any entry boundary.
pub proof fn lemma_enc_pairs_split(s: Seq<(ValueView, ValueView)>, i: int)
    requires
        0 <= i <= s.len(),
    ensures
        enc_pairs(s) == enc_pairs(s.take(i)) + enc_pairs(s.subrange(i, s.len() as int)),
    decreases s.len() - i,
{
    if i == s.len() {
        assert(s.take(i) =~= s);
        assert(s.subrange(i, s.len() as int) =~= Seq::<(ValueView, ValueView)>::empty());
        assert(enc_pairs(s) =~= enc_pairs(s.take(i)) + enc_pairs(s.subrange(i, s.len() as int)));
    } else {
        lemma_enc_pairs_split(s, i + 1);
        let r = s.subrange(i, s.len() as int);
        lemma_enc_pairs_head(r);
        assert(r[0] == s[i]);
        assert(r.subrange(1, r.len() as int) =~= s.subrange(i + 1, s.len() as int));
        assert(s.take(i + 1).drop_last() =~= s.take(i));
        assert(s.take(i + 1).last() == s[i]);
        assert(enc_pairs(s) =~= enc_pairs(s.take(i)) + enc_pairs(s.subrange(i, s.len() as int)));
    }
}

/// The index of the first carriage return at or after `pos`.
fn find_cr(input: &[u8], pos: usize) -> (r: Option<usize>)
    requires
        pos <= input@.len(),
    ensures
        match r {
            Option::Some(e) => line_end(input@, pos as int) == Option::Some(e as int) && pos <= e
                < input@.len(),
            Option::None => line_end(input@, pos as int) == Option::None::<int>,
        },
    decreases input@.len() - pos,
{
    if pos >= input.len() {
        return Option::None;
    }
    if input[pos] == CR {
        return Option::Some(pos);
    }
    find_cr(input, pos + 1)
}

/// The bytes of `input` between two positions, as a fresh vector.
fn copy_range(input: &[u8], a: usize, b: usize) -> (r: Vec<u8>)
    requires
        a <= b <= input@.len(),
    ensures
        r@ == input@.subrange(a as int, b as int),
{
    let mut r: Vec<u8> = Vec::new();
    let mut k: usize = a;
    while k < b
        invariant
            a <= k <= b <= input@.len(),
            r@ == input@.subrange(a as int, k as int),
        decreases b - k,
    {
        r.push(input[k]);
        assert(r@ =~= input@.subrange(a as int, k + 1));
        k = k + 1;
    }
    r
}

/// Read one line: the bytes up to the first carriage return, then
/// consume that byte and the one after it, without checking that the
/// second is a line feed, for compatibility with permissive peers.
pub fn parse_simple_string(input: &[u8], pos: usize) -> (r: Result<(Vec<u8>, usize), ParseError>)
    requires
        pos <= input@.len(),
    ensures
        match line_result(input@, pos as int) {
            Result::Ok((l, p)) => r matches Ok((line, q)) && line@ == l && q == p && pos < q
                <= input@.len() && text_ok(l),
            Result::Err(e) => r == Result::<(Vec<u8>, usize), ParseError>::Err(e),
        },
{
    proof {
        match line_end(input@, pos as int) {
            Option::Some(e) => {
                lemma_line_end_props(input@, pos as int);
                assert forall|i: int| 0 <= i < e - pos implies #[trigger] input@.subrange(
                    pos as int,
                    e,
                )[i] != CR by {
                    assert(input@.subrange(pos as int, e)[i] == input@[pos + i]);
                }
            }
            Option::None => {}
        }
    }
    match find_cr(input, pos) {
        Option::None => Result::Err(ParseError::Incomplete),
        Option::Some(e) => {
            if input.len() - e < 2 {
                return Result::Err(ParseError::Incomplete);
            }
            let line = copy_range(input, pos, e);
            if !crate::numbers::is_utf8_exec(line.as_slice()) {
                return Result::Err(ParseError::SimpleStringParseError);
            }
            Result::Ok((line, e + 2))
        }
    }
}

/// Read one line and parse it as a signed 64-bit integer.
pub fn parse_integer(input: &[u8], pos: usize) -> (r: Result<(i64, usize), ParseError>)
    requires
        pos <= input@.len(),
    ensures
        match int_result(input@, pos as int) {
            Result::Ok((i, p)) => r matches Ok((j, q)) && j == i && q == p && pos < q
                <= input@.len(),
            Result::Err(e) => r == Result::<(i64, usize), ParseError>::Err(e),
        },
{
    match parse_simple_string(input, pos) {
        Result::Err(e) => Result::Err(e),
        Result::Ok((line, p)) => {
            match parse_i64(line.as_slice()) {
                Option::Some(i) => Result::Ok((i, p)),
                Option::None => Result::Err(ParseError::IntegerParseError),
            }
        }
    }
}

/// Read a length, then the body line: a length of minus one is the
/// null form. The length is not held against the body: the body is
/// the next line, a deliberate compatibility choice.
pub fn parse_bulk_string(input: &[u8], pos: usize) -> (r: Result<
    (Option<Vec<u8>>, usize),
    ParseError,
>)
    requires
        pos <= input@.len(),
    ensures
        match int_result(input@, pos as int) {
            Result::Ok((n, p)) => if n == -1 {
                r matches Ok((o, q)) && o is None && q == p && pos < q <= input@.len()
            } else {
                match line_result(input@, p) {
                    Result::Ok((l, p2)) => r matches Ok((o, q)) && o matches Some(body)
                        && body@ == l && q == p2 && pos < q <= input@.len(),
                    Result::Err(e) => r == Result::<(Option<Vec<u8>>, usize), ParseError>::Err(e),
                }
            },
            Result::Err(e) => r == Result::<(Option<Vec<u8>>, usize), ParseError>::Err(e),
        },
{
    match parse_integer(input, pos) {
        Result::Err(e) => Result::Err(e),
        Result::Ok((n, p)) => {
            if n == -1 {
                return Result::Ok((Option::None, p));
            }
            match parse_simple_string(input, p) {
                Result::Err(e) => Result::Err(e),
                Result::Ok((body, q)) => Result::Ok((Option::Some(body), q)),
            }
        }
    }
}

/// Consume the two terminator bytes of the explicit null frame.
pub fn parse_null(input: &[u8], pos: usize) -> (r: Result<((), usize), ParseError>)
    requires
        pos <= input@.len(),
    ensures
        input@.len() - pos >= 2 ==> (r matches Ok((u, q)) && q == pos + 2),
        input@.len() - pos < 2 ==> r == Result::<((), usize), ParseError>::Err(
            ParseError::Incomplete,
        ),
{
    if input.len() - pos < 2 {
        return Result::Err(ParseError::Incomplete);
    }
    Result::Ok(((), pos + 2))
}

/// Read the payload byte of a boolean frame (`t` is true, any other
/// byte is false) and consume its terminator.
pub fn parse_bool(input: &[u8], pos: usize) -> (r: Result<(bool, usize), ParseError>)
    requires
        pos <= input@.len(),
    ensures
        input@.len() - pos >= 3 ==> (r matches Ok((b, q)) && b == (input@[pos as int] == 116)
            && q == pos + 3),
        input@.len() - pos < 3 ==> r == Result::<(bool, usize), ParseError>::Err(
            ParseError::Incomplete,
        ),
{
    if input.len() - pos < 3 {
        return Result::Err(ParseError::Incomplete);
    }
    Result::Ok((input[pos] == 116, pos + 3))
}

/// Read one line as a double: a NaN spelling becomes the sentinel,
/// other text in the floating-point grammar keeps its exact bytes,
/// anything else is refused.
pub fn parse_double(input: &[u8], pos: usize) -> (r: Result<(MyFloat, usize), ParseError>)
    requires
        pos <= input@.len(),
    ensures
        match line_result(input@, pos as int) {
            Result::Ok((l, p)) => if crate::numbers::is_nan_text(l) {
                r matches Ok((f, q)) && f is NaN && q == p && pos < q <= input@.len()
            } else if crate::numbers::is_float_text(l) {
                r matches Ok((f, q)) && f matches MyFloat::Real(t) && t@ == l && q == p && pos < q
                    <= input@.len()
            } else {
                r == Result::<(MyFloat, usize), ParseError>::Err(ParseError::DoubleParseError)
            },
            Result::Err(e) => r == Result::<(MyFloat, usize), ParseError>::Err(e),
        },
{
    match parse_simple_string(input, pos) {
        Result::Err(e) => Result::Err(e),
        Result::Ok((line, p)) => {
            if is_nan_text_exec(line.as_slice()) {
                return Result::Ok((MyFloat::NaN, p));
            }
            if is_float_text_exec(line.as_slice()) {
                return Result::Ok((MyFloat::Real(line), p));
            }
            Result::Err(ParseError::DoubleParseError)
        }
    }
}

/// Read one line verbatim as a big number: arbitrary precision is
/// kept as text, with no numeric validation.
pub fn parse_big_number(input: &[u8], pos: usize) -> (r: Result<(Vec<u8>, usize), ParseError>)
    requires
        pos <= input@.len(),
    ensures
        match line_result(input@, pos as int) {
            Result::Ok((l, p)) => r matches Ok((line, q)) && line@ == l && q == p && pos < q
                <= input@.len() && text_ok(l),
            Result::Err(e) => r == Result::<(Vec<u8>, usize), ParseError>::Err(e),
        },
{
    parse_simple_string(input, pos)
}

/// Read one line and split it once on the first colon into the
/// encoding tag and the payload. The frame is refused when no colon
/// is present, and when the tag or the payload would be empty: a
/// decoded verbatim string's parts are never empty.
#[verifier::loop_isolation(false)]
pub fn parse_verbatim_string(input: &[u8], pos: usize) -> (r: Result<
    (VerbatimString, usize),
    ParseError,
>)
    requires
        pos <= input@.len(),
    ensures
        match line_result(input@, pos as int) {
            Result::Ok((l, p)) => match colon_at(l, 0) {
                Option::Some(c) => if 0 < c && c + 1 < l.len() {
                    r matches Ok((vs, q)) && vs.enc@ == l.subrange(0, c) && vs.data@ == l.subrange(
                        c + 1,
                        l.len() as int,
                    ) && q == p && pos < q <= input@.len() && vs.enc@.len() > 0 && vs.data@.len()
                        > 0 && text_ok(vs.enc@ + seq![58u8] + vs.data@) && (forall|i: int|
                        0 <= i < vs.enc@.len() ==> vs.enc@[i] != 58)
                } else {
                    r == Result::<(VerbatimString, usize), ParseError>::Err(
                        ParseError::VerbatimStringParseError,
                    )
                },
                Option::None => r == Result::<(VerbatimString, usize), ParseError>::Err(
                    ParseError::VerbatimStringParseError,
                ),
            },
            Result::Err(e) => r == Result::<(VerbatimString, usize), ParseError>::Err(e),
        },
{
    match parse_simple_string(input, pos) {
        Result::Err(e) => Result::Err(e),
        Result::Ok((line, p)) => {
            let mut c: usize = 0;
            loop
                invariant
                    0 <= c <= line@.len(),
                    forall|j: int| 0 <= j < c ==> #[trigger] line@[j] != 58,
                    pos <= input@.len(),
                    p <= input@.len(),
                decreases line@.len() - c,
            {
                if c == line.len() {
                    proof {
                        lemma_colon_at_none(line@, 0);
                    }
                    return Result::Err(ParseError::VerbatimStringParseError);
                }
                if line[c] == 58 {
                    proof {
                        lemma_colon_at(line@, 0, c as int);
                    }
                    if c == 0 || c + 1 == line.len() {
                        return Result::Err(ParseError::VerbatimStringParseError);
                    }
                    let e = copy_range(line.as_slice(), 0, c);
                    let d = copy_range(line.as_slice(), c + 1, line.len());
                    proof {
                        assert(e@ + seq![58u8] + d@ =~= line@);
                    }
                    return Result::Ok((VerbatimString { enc: e, data: d }, p));
                }
                c = c + 1;
            }
        }
    }
}

/// The decimal text of an integer is line-safe: ASCII digits and at
/// most a leading minus sign.
pub proof fn lemma_dec_text_ok(i: int)
    requires
        i64::MIN <= i <= i64::MAX,
    ensures
        text_ok(dec_i64(i)),
{
    let d = dec_i64(i);
    if i < 0 {
        lemma_dec_u_digits((-i) as nat);
        assert forall|j: int| 0 <= j < d.len() implies #[trigger] d[j] < 128 && d[j] != CR by {
            if j > 0 {
                assert(d[j] == dec_u((-i) as nat)[j - 1]);
                assert(crate::numbers::is_digit(dec_u((-i) as nat)[j - 1]));
            }
        }
    } else {
        lemma_dec_u_digits(i as nat);
        assert forall|j: int| 0 <= j < d.len() implies #[trigger] d[j] < 128 && d[j] != CR by {
            assert(crate::numbers::is_digit(dec_u(i as nat)[j]));
        }
    }
    lemma_ascii_utf8(d, 0);
}

/// A line-safe body followed by the terminator reads back exactly.
pub proof fn lemma_line_at(s: Seq<u8>, pos: int, body: Seq<u8>)
    requires
        0 <= pos,
        pos + body.len() + 2 <= s.len(),
        s.subrange(pos, pos + body.len() + 2) == body + crlf(),
        text_ok(body),
    ensures
        line_result(s, pos) == Result::<(Seq<u8>, int), ParseError>::Ok(
            (body, pos + body.len() + 2),
        ),
{
    let w = s.subrange(pos, pos + body.len() + 2);
    assert forall|i: int| pos <= i < pos + body.len() implies #[trigger] s[i] != CR by {
        assert(w[i - pos] == s[i]);
        assert(w[i - pos] == body[i - pos]);
    }
    assert(w[body.len() as int] == CR);
    assert(s[pos + body.len()] == CR);
    lemma_line_end_at(s, pos, pos + body.len());
    assert(s.subrange(pos, pos + body.len()) =~= body);
}

/// A printed integer followed by the terminator reads back exactly.
pub proof fn lemma_int_at(s: Seq<u8>, pos: int, i: int)
    requires
        i64::MIN <= i <= i64::MAX,
        0 <= pos,
        pos + dec_i64(i).len() + 2 <= s.len(),
        s.subrange(pos, pos + dec_i64(i).len() + 2) == dec_i64(i) + crlf(),
    ensures
        int_result(s, pos) == Result::<(i64, int), ParseError>::Ok(
            (i as i64, pos + dec_i64(i).len() + 2),
        ),
{
    lemma_dec_text_ok(i);
    lemma_line_at(s, pos, dec_i64(i));
    lemma_parse_dec_i64(i);
}

/// A count line followed by the encodings of a row, as the aggregate
/// frames carry them.
pub open spec fn counted_seq_at(s: Seq<u8>, pos: int, vs: Seq<ValueView>) -> bool {
    let c = dec_u(vs.len()) + crlf();
    0 <= pos && pos + c.len() + enc_seq(vs).len() <= s.len() && s.subrange(pos, pos + c.len()) == c
        && s.subrange(pos + c.len(), pos + c.len() + enc_seq(vs).len()) == enc_seq(vs)
}

/// A count line followed by the encodings of a pair row.
pub open spec fn counted_pairs_at(s: Seq<u8>, pos: int, ps: Seq<(ValueView, ValueView)>) -> bool {
    let c = dec_u(ps.len()) + crlf();
    0 <= pos && pos + c.len() + enc_pairs(ps).len() <= s.len() && s.subrange(pos, pos + c.len())
        == c && s.subrange(pos + c.len(), pos + c.len() + enc_pairs(ps).len()) == enc_pairs(ps)
}

/// Decode a row of `n` values, one after the other.
#[verifier::loop_isolation(false)]
fn parse_values(input: &[u8], pos: usize, n: i64) -> (r: Result<(Vec<Value>, usize), ParseError>)
    requires
        pos <= input@.len(),
    ensures
        (r matches Ok((vs, p)) ==> pos <= p <= input@.len() && vview_seq(vs@).len() == vs@.len()
            && (forall|j: int|
            0 <= j < vs@.len() ==> value_wf(#[trigger] vview_seq(vs@)[j])) && (n >= 0
            ==> vs@.len() == n) && (n <= 0 ==> vs@.len() == 0 && p == pos)),
        forall|vs: Seq<ValueView>|
            rt_ok_all(vs) && vs.len() == n && enc_seq(vs).len() <= i64::MAX
                && #[trigger] frames_at(input@, pos as int, vs) ==> (r matches Ok((out, p))
                && vview_seq(out@) == vs && p == pos + enc_seq(vs).len()),
        (match row_fin(
            input@,
            pos as int,
            if n >= 0 {
                n as int
            } else {
                0
            },
        ) {
            Result::Ok(q) => r matches Ok((out, p)) && p == q,
            Result::Err(e) => r == Result::<(Vec<Value>, usize), ParseError>::Err(e),
        }),
    decreases input@.len() - pos, 3int,
{
    let mut out: Vec<Value> = Vec::new();
    let mut cur: usize = pos;
    let mut i: i64 = 0;
    if n <= 0 {
        proof {
            assert forall|vs: Seq<ValueView>|
                rt_ok_all(vs) && vs.len() == n && enc_seq(vs).len() <= i64::MAX
                    && #[trigger] frames_at(input@, pos as int, vs) implies (vview_seq(out@) == vs
                && pos == pos + enc_seq(vs).len()) by {
                assert(vs =~= Seq::<ValueView>::empty());
                assert(vview_seq(out@) =~= vs);
            }
        }
        return Result::Ok((out, pos));
    }
    while i < n
        invariant
            0 <= i <= n,
            pos <= cur <= input@.len(),
            vview_seq(out@).len() == out@.len(),
            out@.len() == i,
            row_fin(input@, pos as int, n as int) == row_fin(input@, cur as int, n - i),
            forall|j: int| 0 <= j < out@.len() ==> value_wf(#[trigger] vview_seq(out@)[j]),
            forall|vs: Seq<ValueView>|
                rt_ok_all(vs) && vs.len() == n && enc_seq(vs).len() <= i64::MAX
                    && #[trigger] frames_at(input@, pos as int, vs) ==> (vview_seq(out@)
                    == vs.take(i as int) && cur == pos + enc_seq(vs.take(i as int)).len()),
        decreases n - i,
    {
        let rr = parse(input, cur);
        proof {
            assert forall|vs: Seq<ValueView>|
                rt_ok_all(vs) && vs.len() == n && enc_seq(vs).len() <= i64::MAX
                    && #[trigger] frames_at(input@, pos as int, vs) implies (frame_at(
                input@,
                cur as int,
                vs[i as int],
            ) && rt_ok(vs[i as int]) && enc(vs[i as int]).len() <= i64::MAX) by {
                let a = enc_seq(vs.take(i as int)).len();
                lemma_enc_seq_split(vs, i as int);
                let rest = vs.subrange(i as int, vs.len() as int);
                lemma_enc_seq_head(rest);
                assert(rest[0] == vs[i as int]);
                assert(rest.subrange(1, rest.len() as int) =~= vs.subrange(
                    i + 1,
                    vs.len() as int,
                ));
                let b = enc(vs[i as int]).len();
                assert(enc_seq(vs) == enc_seq(vs.take(i as int)) + (enc(vs[i as int]) + enc_seq(
                    vs.subrange(i + 1, vs.len() as int),
                )));
                let whole = input@.subrange(pos as int, pos + enc_seq(vs).len());
                assert forall|j: int| 0 <= j < b implies input@.subrange(
                    cur as int,
                    cur + b,
                )[j] == enc(vs[i as int])[j] by {
                    assert(whole[a + j] == input@[pos + a + j]);
                    assert(whole[a + j] == enc(vs[i as int])[j]);
                    assert(input@.subrange(cur as int, cur + b)[j] == input@[cur + j]);
                }
                assert(input@.subrange(cur as int, cur + b) =~= enc(vs[i as int]));
            }
        }
        match rr {
            Result::Err(e) => {
                proof {
                    assert(row_fin(input@, cur as int, n - i) == Result::<int, ParseError>::Err(
                        e,
                    ));
                }
                return Result::Err(e);
            }
            Result::Ok((v, p)) => {
                proof {
                    assert(row_fin(input@, cur as int, n - i) == row_fin(
                        input@,
                        p as int,
                        n - i - 1,
                    ));
                }
                let ghost prev = out@;
                out.push(v);
                proof {
                    assert(out@.drop_last() =~= prev);
                    assert forall|j: int|
                        0 <= j < out@.len() implies value_wf(
                        #[trigger] vview_seq(out@)[j],
                    ) by {
                        if j < prev.len() {
                            assert(vview_seq(out@)[j] == vview_seq(prev)[j]);
                        }
                    }
                    assert forall|vs: Seq<ValueView>|
                        rt_ok_all(vs) && vs.len() == n && enc_seq(vs).len() <= i64::MAX
                            && #[trigger] frames_at(input@, pos as int, vs) implies (vview_seq(
                        out@,
                    ) == vs.take(i + 1) && p == pos + enc_seq(vs.take(i + 1)).len()) by {
                        assert(v@ == vs[i as int]);
                        assert(vs.take(i + 1).drop_last() =~= vs.take(i as int));
                        assert(vs.take(i + 1).last() == vs[i as int]);
                        assert(vview_seq(out@) =~= vs.take(i + 1));
                    }
                }
                cur = p;
                i = i + 1;
            }
        }
    }
    proof {
        assert forall|vs: Seq<ValueView>|
            rt_ok_all(vs) && vs.len() == n && enc_seq(vs).len() <= i64::MAX
                && #[trigger] frames_at(input@, pos as int, vs) implies (vview_seq(out@) == vs
            && cur == pos + enc_seq(vs).len()) by {
            assert(vs.take(vs.len() as int) =~= vs);
        }
    }
    Result::Ok((out, cur))
}

/// Read a count, then that many values: a count of minus one is the
/// null form.
#[verifier::loop_isolation(false)]
pub fn parse_array(input: &[u8], pos: usize) -> (r: Result<(Option<Vec<Value>>, usize), ParseError>)
    requires
        pos <= input@.len(),
    ensures
        (r matches Ok((o, p)) ==> pos < p <= input@.len() && (o matches Some(a) ==> vview_seq(
            a@,
        ).len() == a@.len() && forall|j: int|
            0 <= j < a@.len() ==> value_wf(#[trigger] vview_seq(a@)[j]))),
        (match int_result(input@, pos as int) {
            Result::Ok((n, p)) => n == -1 ==> (r matches Ok((o, q)) && o is None && q == p),
            Result::Err(e) => r == Result::<(Option<Vec<Value>>, usize), ParseError>::Err(e),
        }),
        forall|vs: Seq<ValueView>|
            rt_ok_all(vs) && enc_seq(vs).len() <= i64::MAX
                && #[trigger] counted_seq_at(input@, pos as int, vs) ==> (r matches Ok((o, p))
                && o matches Some(arr) && vview_seq(arr@) == vs && p == pos + dec_u(
                vs.len(),
            ).len() + 2 + enc_seq(vs).len()),
        (match int_result(input@, pos as int) {
            Result::Ok((n, p)) => n != -1 ==> (match row_fin(
                input@,
                p,
                if n >= 0 {
                    n as int
                } else {
                    0
                },
            ) {
                Result::Ok(q) => r matches Ok((o, pp)) && pp == q,
                Result::Err(e) => r == Result::<(Option<Vec<Value>>, usize), ParseError>::Err(e),
            }),
            Result::Err(_) => true,
        }),
    decreases input@.len() - pos, 4int,
{
    proof {
        assert forall|vs: Seq<ValueView>|
            rt_ok_all(vs) && enc_seq(vs).len() <= i64::MAX
                && #[trigger] counted_seq_at(input@, pos as int, vs) implies (int_result(
            input@,
            pos as int,
        ) == Result::<(i64, int), ParseError>::Ok(
            (vs.len() as i64, pos + dec_u(vs.len()).len() + 2),
        ) && vs.len() <= i64::MAX && frames_at(
            input@,
            pos + dec_u(vs.len()).len() + 2,
            vs,
        )) by {
            lemma_enc_seq_min(vs);
            assert(dec_i64(vs.len() as int) == dec_u(vs.len()));
            lemma_int_at(input@, pos as int, vs.len() as int);
        }
    }
    match parse_integer(input, pos) {
        Result::Err(e) => Result::Err(e),
        Result::Ok((n, p)) => {
            if n == -1 {
                return Result::Ok((Option::None, p));
            }
            match parse_values(input, p, n) {
                Result::Err(e) => Result::Err(e),
                Result::Ok((vsx, q)) => Result::Ok((Option::Some(vsx), q)),
            }
        }
    }
}

/// Read a count, then that many key-value pairs into the ordered map
/// kind; a later duplicate key overwrites the earlier entry.
#[verifier::loop_isolation(false)]
pub fn parse_map(input: &[u8], pos: usize) -> (r: Result<(Vec<(Value, Value)>, usize), ParseError>)
    requires
        pos <= input@.len(),
    ensures
        (r matches Ok((m, p)) ==> pos < p <= input@.len() && sorted_pairs(vview_pairs(m@))
            && vview_pairs(m@).len() == m@.len() && forall|j: int|
            0 <= j < m@.len() ==> value_wf(#[trigger] vview_pairs(m@)[j].0) && value_wf(
                vview_pairs(m@)[j].1,
            )),
        forall|ps: Seq<(ValueView, ValueView)>|
            rt_ok_pairs(ps) && enc_pairs(ps).len() <= i64::MAX && #[trigger] counted_pairs_at(
                input@,
                pos as int,
                ps,
            ) ==> (r matches Ok((m, p)) && vview_pairs(m@) == dict_of(ps) && p == pos + dec_u(
                ps.len(),
            ).len() + 2 + enc_pairs(ps).len()),
        (match int_result(input@, pos as int) {
            Result::Err(e) => r == Result::<(Vec<(Value, Value)>, usize), ParseError>::Err(e),
            Result::Ok(_) => true,
        }),
        (match int_result(input@, pos as int) {
            Result::Ok((n, p)) => (match row_fin(
                input@,
                p,
                if n >= 0 {
                    2 * (n as int)
                } else {
                    0
                },
            ) {
                Result::Ok(q) => r matches Ok((m, pp)) && pp == q,
                Result::Err(e) => r == Result::<(Vec<(Value, Value)>, usize), ParseError>::Err(e),
            }),
            Result::Err(_) => true,
        }),
    decreases input@.len() - pos, 4int,
{
    proof {
        assert forall|ps: Seq<(ValueView, ValueView)>|
            rt_ok_pairs(ps) && enc_pairs(ps).len() <= i64::MAX
                && #[trigger] counted_pairs_at(input@, pos as int, ps) implies (int_result(
            input@,
            pos as int,
        ) == Result::<(i64, int), ParseError>::Ok(
            (ps.len() as i64, pos + dec_u(ps.len()).len() + 2),
        ) && ps.len() <= i64::MAX && frames_at_pairs(
            input@,
            pos + dec_u(ps.len()).len() + 2,
            ps,
        )) by {
            lemma_enc_pairs_min(ps);
            assert(dec_i64(ps.len() as int) == dec_u(ps.len()));
            lemma_int_at(input@, pos as int, ps.len() as int);
        }
    }
    match parse_integer(input, pos) {
        Result::Err(e) => Result::Err(e),
        Result::Ok((n, p1)) => {
            let mut acc: Vec<(Value, Value)> = Vec::new();
            let mut cur: usize = p1;
            let mut i: i64 = 0;
            proof {
                assert(vview_pairs(acc@) =~= Seq::<(ValueView, ValueView)>::empty());
            }
            if n <= 0 {
                proof {
                    assert forall|ps: Seq<(ValueView, ValueView)>|
                        rt_ok_pairs(ps) && enc_pairs(ps).len() <= i64::MAX
                            && #[trigger] counted_pairs_at(
                        input@,
                        pos as int,
                        ps,
                    ) implies (vview_pairs(acc@) == dict_of(ps) && p1 == pos + dec_u(
                        ps.len(),
                    ).len() + 2 + enc_pairs(ps).len()) by {
                        assert(ps =~= Seq::<(ValueView, ValueView)>::empty());
                        assert(vview_pairs(acc@) =~= dict_of(ps));
                    }
                }
                return Result::Ok((acc, p1));
            }
            while i < n
                invariant
                    0 <= i <= n,
                    p1 <= cur <= input@.len(),
                    sorted_pairs(vview_pairs(acc@)),
                    row_fin(input@, p1 as int, 2 * (n as int)) == row_fin(
                        input@,
                        cur as int,
                        2 * ((n - i) as int),
                    ),
                    vview_pairs(acc@).len() == acc@.len(),
                    forall|x: (ValueView, ValueView)|
                        vview_pairs(acc@).contains(x) ==> value_wf(x.0) && value_wf(x.1),
                    forall|ps: Seq<(ValueView, ValueView)>|
                        rt_ok_pairs(ps) && enc_pairs(ps).len() <= i64::MAX && ps.len() == n
                            && #[trigger] frames_at_pairs(input@, p1 as int, ps) ==> (vview_pairs(
                            acc@,
                        ) == dict_of(ps.take(i as int)) && cur == p1 + enc_pairs(
                            ps.take(i as int),
                        ).len()),
                decreases n - i,
            {
                let rk = parse(input, cur);
                proof {
                    assert forall|ps: Seq<(ValueView, ValueView)>|
                        rt_ok_pairs(ps) && enc_pairs(ps).len() <= i64::MAX && ps.len() == n
                            && #[trigger] frames_at_pairs(
                        input@,
                        p1 as int,
                        ps,
                    ) implies (frame_at(input@, cur as int, ps[i as int].0) && rt_ok(
                        ps[i as int].0,
                    ) && enc(ps[i as int].0).len() <= i64::MAX && frame_at(
                        input@,
                        cur + enc(ps[i as int].0).len(),
                        ps[i as int].1,
                    ) && rt_ok(ps[i as int].1) && enc(ps[i as int].1).len() <= i64::MAX) by {
                        let a = enc_pairs(ps.take(i as int)).len();
                        lemma_enc_pairs_split(ps, i as int);
                        let rest = ps.subrange(i as int, ps.len() as int);
                        lemma_enc_pairs_head(rest);
                        assert(rest[0] == ps[i as int]);
                        assert(rest.subrange(1, rest.len() as int) =~= ps.subrange(
                            i + 1,
                            ps.len() as int,
                        ));
                        let bk = enc(ps[i as int].0).len();
                        let bv = enc(ps[i as int].1).len();
                        let whole = input@.subrange(p1 as int, p1 + enc_pairs(ps).len());
                        assert forall|j: int| 0 <= j < bk implies input@.subrange(
                            cur as int,
                            cur + bk,
                        )[j] == enc(ps[i as int].0)[j] by {
                            assert(whole[a + j] == input@[p1 + a + j]);
                            assert(whole[a + j] == enc(ps[i as int].0)[j]);
                            assert(input@.subrange(cur as int, cur + bk)[j] == input@[cur + j]);
                        }
                        assert(input@.subrange(cur as int, cur + bk) =~= enc(ps[i as int].0));
                        assert forall|j: int| 0 <= j < bv implies input@.subrange(
                            cur + bk,
                            cur + bk + bv,
                        )[j] == enc(ps[i as int].1)[j] by {
                            assert(whole[a + bk + j] == input@[p1 + a + bk + j]);
                            assert(whole[a + bk + j] == enc(ps[i as int].1)[j]);
                            assert(input@.subrange(cur + bk, cur + bk + bv)[j] == input@[cur + bk
                                + j]);
                        }
                        assert(input@.subrange(cur + bk, cur + bk + bv) =~= enc(ps[i as int].1));
                    }
                }
                let (kv, pk) = match rk {
                    Result::Err(e) => {
                        proof {
                            assert(row_fin(input@, cur as int, 2 * ((n - i) as int))
                                == Result::<int, ParseError>::Err(e));
                        }
                        return Result::Err(e);
                    }
                    Result::Ok(t) => t,
                };
                proof {
                    assert(row_fin(input@, cur as int, 2 * ((n - i) as int)) == row_fin(
                        input@,
                        pk as int,
                        2 * ((n - i) as int) - 1,
                    ));
                }
                let rv = parse(input, pk);
                let (vv, pv) = match rv {
                    Result::Err(e) => {
                        proof {
                            assert(row_fin(input@, pk as int, 2 * ((n - i) as int) - 1)
                                == Result::<int, ParseError>::Err(e));
                        }
                        return Result::Err(e);
                    }
                    Result::Ok(t) => t,
                };
                proof {
                    assert(row_fin(input@, pk as int, 2 * ((n - i) as int) - 1) == row_fin(
                        input@,
                        pv as int,
                        2 * ((n - (i + 1)) as int),
                    ));
                }
                let ghost prev = vview_pairs(acc@);
                let ghost kg = kv@;
                let ghost vg = vv@;
                dict_insert_vec(&mut acc, kv, vv);
                proof {
                    lemma_dict_insert_sorted(prev, kg, vg);
                    assert forall|x: (ValueView, ValueView)|
                        vview_pairs(acc@).contains(x) implies value_wf(x.0) && value_wf(x.1) by {
                        if x != (kg, vg) {
                            assert(prev.contains(x));
                        }
                    }
                    crate::lemma_vview_pairs(acc@);
                    assert forall|ps: Seq<(ValueView, ValueView)>|
                        rt_ok_pairs(ps) && enc_pairs(ps).len() <= i64::MAX && ps.len() == n
                            && #[trigger] frames_at_pairs(
                        input@,
                        p1 as int,
                        ps,
                    ) implies (vview_pairs(acc@) == dict_of(ps.take(i + 1)) && pv == p1
                        + enc_pairs(ps.take(i + 1)).len()) by {
                        assert(kg == ps[i as int].0);
                        assert(vg == ps[i as int].1);
                        assert(prev == dict_of(ps.take(i as int)));
                        assert(ps.take(i + 1).drop_last() =~= ps.take(i as int));
                        assert(ps.take(i + 1).last() == ps[i as int]);
                        assert(vview_pairs(acc@) == dict_of(ps.take(i + 1)));
                    }
                }
                cur = pv;
                i = i + 1;
            }
            proof {
                assert forall|ps: Seq<(ValueView, ValueView)>|
                    rt_ok_pairs(ps) && enc_pairs(ps).len() <= i64::MAX
                        && #[trigger] counted_pairs_at(input@, pos as int, ps) implies (
                vview_pairs(acc@) == dict_of(ps) && cur == p1 + enc_pairs(ps).len()) by {
                    assert(ps.take(ps.len() as int) =~= ps);
                }
                assert forall|j: int| 0 <= j < acc@.len() implies value_wf(
                    #[trigger] vview_pairs(acc@)[j].0,
                ) && value_wf(vview_pairs(acc@)[j].1) by {
                    assert(vview_pairs(acc@).contains(vview_pairs(acc@)[j]));
                }
            }
            Result::Ok((acc, cur))
        }
    }
}

/// Read a count, then that many values into the ordered set kind;
/// duplicates collapse.
#[verifier::loop_isolation(false)]
pub fn parse_set(input: &[u8], pos: usize) -> (r: Result<(Vec<Value>, usize), ParseError>)
    requires
        pos <= input@.len(),
    ensures
        (r matches Ok((m, p)) ==> pos < p <= input@.len() && sorted_vals(vview_seq(m@))
            && vview_seq(m@).len() == m@.len() && forall|j: int|
            0 <= j < m@.len() ==> value_wf(#[trigger] vview_seq(m@)[j])),
        forall|vs: Seq<ValueView>|
            rt_ok_all(vs) && enc_seq(vs).len() <= i64::MAX && #[trigger] counted_seq_at(
                input@,
                pos as int,
                vs,
            ) ==> (r matches Ok((m, p)) && vview_seq(m@) == uniq_of(vs) && p == pos + dec_u(
                vs.len(),
            ).len() + 2 + enc_seq(vs).len()),
        (match int_result(input@, pos as int) {
            Result::Err(e) => r == Result::<(Vec<Value>, usize), ParseError>::Err(e),
            Result::Ok(_) => true,
        }),
        (match int_result(input@, pos as int) {
            Result::Ok((n, p)) => (match row_fin(
                input@,
                p,
                if n >= 0 {
                    n as int
                } else {
                    0
                },
            ) {
                Result::Ok(q) => r matches Ok((m, pp)) && pp == q,
                Result::Err(e) => r == Result::<(Vec<Value>, usize), ParseError>::Err(e),
            }),
            Result::Err(_) => true,
        }),
    decreases input@.len() - pos, 4int,
{
    proof {
        assert forall|vs: Seq<ValueView>|
            rt_ok_all(vs) && enc_seq(vs).len() <= i64::MAX
                && #[trigger] counted_seq_at(input@, pos as int, vs) implies (int_result(
            input@,
            pos as int,
        ) == Result::<(i64, int), ParseError>::Ok(
            (vs.len() as i64, pos + dec_u(vs.len()).len() + 2),
        ) && vs.len() <= i64::MAX && frames_at(
            input@,
            pos + dec_u(vs.len()).len() + 2,
            vs,
        )) by {
            lemma_enc_seq_min(vs);
            assert(dec_i64(vs.len() as int) == dec_u(vs.len()));
            lemma_int_at(input@, pos as int, vs.len() as int);
        }
    }
    match parse_integer(input, pos) {
        Result::Err(e) => Result::Err(e),
        Result::Ok((n, p1)) => {
            let mut acc: Vec<Value> = Vec::new();
            let mut cur: usize = p1;
            let mut i: i64 = 0;
            proof {
                assert(vview_seq(acc@) =~= Seq::<ValueView>::empty());
            }
            if n <= 0 {
                proof {
                    assert forall|vs: Seq<ValueView>|
                        rt_ok_all(vs) && enc_seq(vs).len() <= i64::MAX
                            && #[trigger] counted_seq_at(input@, pos as int, vs) implies (
                    vview_seq(acc@) == uniq_of(vs) && p1 == pos + dec_u(vs.len()).len() + 2
                        + enc_seq(vs).len()) by {
                        assert(vs =~= Seq::<ValueView>::empty());
                        assert(vview_seq(acc@) =~= uniq_of(vs));
                    }
                }
                return Result::Ok((acc, p1));
            }
            while i < n
                invariant
                    0 <= i <= n,
                    p1 <= cur <= input@.len(),
                    sorted_vals(vview_seq(acc@)),
                    row_fin(input@, p1 as int, n as int) == row_fin(
                        input@,
                        cur as int,
                        (n - i) as int,
                    ),
                    vview_seq(acc@).len() == acc@.len(),
                    forall|x: ValueView| vview_seq(acc@).contains(x) ==> value_wf(x),
                    forall|vs: Seq<ValueView>|
                        rt_ok_all(vs) && enc_seq(vs).len() <= i64::MAX && vs.len() == n
                            && #[trigger] frames_at(input@, p1 as int, vs) ==> (vview_seq(acc@)
                            == uniq_of(vs.take(i as int)) && cur == p1 + enc_seq(
                            vs.take(i as int),
                        ).len()),
                decreases n - i,
            {
                let rr = parse(input, cur);
                proof {
                    assert forall|vs: Seq<ValueView>|
                        rt_ok_all(vs) && enc_seq(vs).len() <= i64::MAX && vs.len() == n
                            && #[trigger] frames_at(
                        input@,
                        p1 as int,
                        vs,
                    ) implies (frame_at(input@, cur as int, vs[i as int]) && rt_ok(vs[i as int])
                        && enc(vs[i as int]).len() <= i64::MAX) by {
                        let a = enc_seq(vs.take(i as int)).len();
                        lemma_enc_seq_split(vs, i as int);
                        let rest = vs.subrange(i as int, vs.len() as int);
                        lemma_enc_seq_head(rest);
                        assert(rest[0] == vs[i as int]);
                        assert(rest.subrange(1, rest.len() as int) =~= vs.subrange(
                            i + 1,
                            vs.len() as int,
                        ));
                        let b = enc(vs[i as int]).len();
                        let whole = input@.subrange(p1 as int, p1 + enc_seq(vs).len());
                        assert forall|j: int| 0 <= j < b implies input@.subrange(
                            cur as int,
                            cur + b,
                        )[j] == enc(vs[i as int])[j] by {
                            assert(whole[a + j] == input@[p1 + a + j]);
                            assert(whole[a + j] == enc(vs[i as int])[j]);
                            assert(input@.subrange(cur as int, cur + b)[j] == input@[cur + j]);
                        }
                        assert(input@.subrange(cur as int, cur + b) =~= enc(vs[i as int]));
                    }
                }
                let (v, p) = match rr {
                    Result::Err(e) => {
                        proof {
                            assert(row_fin(input@, cur as int, (n - i) as int)
                                == Result::<int, ParseError>::Err(e));
                        }
                        return Result::Err(e);
                    }
                    Result::Ok(t) => t,
                };
                proof {
                    assert(row_fin(input@, cur as int, (n - i) as int) == row_fin(
                        input@,
                        p as int,
                        (n - (i + 1)) as int,
                    ));
                }
                let ghost prev = vview_seq(acc@);
                let ghost vg = v@;
                uniq_insert_vec(&mut acc, v);
                proof {
                    lemma_uniq_insert_sorted(prev, vg);
                    assert forall|x: ValueView| vview_seq(acc@).contains(x) implies value_wf(
                        x,
                    ) by {
                        if x != vg {
                            assert(prev.contains(x));
                        }
                    }
                    crate::lemma_vview_seq(acc@);
                    assert forall|vs: Seq<ValueView>|
                        rt_ok_all(vs) && enc_seq(vs).len() <= i64::MAX && vs.len() == n
                            && #[trigger] frames_at(
                        input@,
                        p1 as int,
                        vs,
                    ) implies (vview_seq(acc@) == uniq_of(vs.take(i + 1)) && p == p1 + enc_seq(
                        vs.take(i + 1),
                    ).len()) by {
                        assert(vg == vs[i as int]);
                        assert(prev == uniq_of(vs.take(i as int)));
                        assert(vs.take(i + 1).drop_last() =~= vs.take(i as int));
                        assert(vs.take(i + 1).last() == vs[i as int]);
                        assert(vview_seq(acc@) == uniq_of(vs.take(i + 1)));
                    }
                }
                cur = p;
                i = i + 1;
            }
            proof {
                assert forall|vs: Seq<ValueView>|
                    rt_ok_all(vs) && enc_seq(vs).len() <= i64::MAX
                        && #[trigger] counted_seq_at(input@, pos as int, vs) implies (vview_seq(
                    acc@,
                ) == uniq_of(vs) && cur == p1 + enc_seq(vs).len()) by {
                    assert(vs.take(vs.len() as int) =~= vs);
                }
                assert forall|j: int| 0 <= j < acc@.len() implies value_wf(
                    #[trigger] vview_seq(acc@)[j],
                ) by {
                    assert(vview_seq(acc@).contains(vview_seq(acc@)[j]));
                }
            }
            Result::Ok((acc, cur))
        }
    }
}

/// Whether the byte opens one of the protocol's frames.
pub open spec fn is_tag(b: u8) -> bool {
    b == 43 || b == 45 || b == 58 || b == 36 || b == 42 || b == 95 || b == 35 || b == 44 || b == 40
        || b == 33 || b == 61 || b == 37 || b == 126 || b == 62
}

/// Where a frame is one of the null wire forms: a length-prefixed or
/// counted frame whose length or count line reads minus one. The
/// payload is the position after that line.
pub open spec fn null_form_at(s: Seq<u8>, pos: int) -> Option<int> {
    if 0 <= pos < s.len() && (s[pos] == 36 || s[pos] == 33 || s[pos] == 42 || s[pos] == 62) {
        match int_result(s, pos + 1) {
            Result::Ok((n, p)) => if n == -1 {
                Option::Some(p)
            } else {
                Option::None
            },
            Result::Err(_) => Option::None,
        }
    } else {
        Option::None
    }
}

/// One line read lands strictly past the cursor and inside the input.
pub proof fn lemma_line_result_bounds(s: Seq<u8>, pos: int)
    requires
        0 <= pos,
    ensures
        match line_result(s, pos) {
            Result::Ok((l, p)) => pos < p <= s.len(),
            Result::Err(_) => true,
        },
{
    match line_end(s, pos) {
        Option::Some(e) => {
            lemma_line_end_props(s, pos);
        }
        Option::None => {}
    }
}

/// One integer read lands strictly past the cursor and inside the
/// input.
pub proof fn lemma_int_result_bounds(s: Seq<u8>, pos: int)
    requires
        0 <= pos,
    ensures
        match int_result(s, pos) {
            Result::Ok((n, p)) => pos < p <= s.len(),
            Result::Err(_) => true,
        },
{
    lemma_line_result_bounds(s, pos);
}

/// Where one frame ends, or the decode failure that stops it: the
/// decoder's full footprint, the value aside. Aggregates walk their
/// elements, so a malformed element or an input that ends inside the
/// row surfaces here with the element's own error.
pub open spec fn frame_fin(s: Seq<u8>, pos: int) -> Result<int, ParseError>
    decreases s.len() - pos, 1int,
{
    if pos < 0 || pos >= s.len() {
        Result::Err(ParseError::Incomplete)
    } else {
        let t = s[pos];
        if t == 43 || t == 45 || t == 40 {
            match line_result(s, pos + 1) {
                Result::Ok((l, p)) => Result::Ok(p),
                Result::Err(e) => Result::Err(e),
            }
        } else if t == 58 {
            match int_result(s, pos + 1) {
                Result::Ok((n, p)) => Result::Ok(p),
                Result::Err(e) => Result::Err(e),
            }
        } else if t == 44 {
            match line_result(s, pos + 1) {
                Result::Ok((l, p)) => if crate::numbers::is_nan_text(l)
                    || crate::numbers::is_float_text(l) {
                    Result::Ok(p)
                } else {
                    Result::Err(ParseError::DoubleParseError)
                },
                Result::Err(e) => Result::Err(e),
            }
        } else if t == 95 {
            if s.len() - pos >= 3 {
                Result::Ok(pos + 3)
            } else {
                Result::Err(ParseError::Incomplete)
            }
        } else if t == 35 {
            if s.len() - pos >= 4 {
                Result::Ok(pos + 4)
            } else {
                Result::Err(ParseError::Incomplete)
            }
        } else if t == 61 {
            match line_result(s, pos + 1) {
                Result::Ok((l, p)) => match colon_at(l, 0) {
                    Option::Some(c) => if 0 < c && c + 1 < l.len() {
                        Result::Ok(p)
                    } else {
                        Result::Err(ParseError::VerbatimStringParseError)
                    },
                    Option::None => Result::Err(ParseError::VerbatimStringParseError),
                },
                Result::Err(e) => Result::Err(e),
            }
        } else if t == 36 || t == 33 {
            match int_result(s, pos + 1) {
                Result::Ok((n, p)) => if n == -1 {
                    Result::Ok(p)
                } else {
                    match line_result(s, p) {
                        Result::Ok((l, q)) => Result::Ok(q),
                        Result::Err(e) => Result::Err(e),
                    }
                },
                Result::Err(e) => Result::Err(e),
            }
        } else if t == 42 || t == 62 {
            match int_result(s, pos + 1) {
                Result::Ok((n, p)) => if n == -1 {
                    Result::Ok(p)
                } else if pos < p <= s.len() {
                    row_fin(
                        s,
                        p,
                        if n >= 0 {
                            n as int
                        } else {
                            0
                        },
                    )
                } else {
                    Result::Err(ParseError::Incomplete)
                },
                Result::Err(e) => Result::Err(e),
            }
        } else if t == 37 {
            match int_result(s, pos + 1) {
                Result::Ok((n, p)) => if pos < p <= s.len() {
                    row_fin(
                        s,
                        p,
                        if n >= 0 {
                            2 * (n as int)
                        } else {
                            0
                        },
                    )
                } else {
                    Result::Err(ParseError::Incomplete)
                },
                Result::Err(e) => Result::Err(e),
            }
        } else if t == 126 {
            match int_result(s, pos + 1) {
                Result::Ok((n, p)) => if pos < p <= s.len() {
                    row_fin(
                        s,
                        p,
                        if n >= 0 {
                            n as int
                        } else {
                            0
                        },
                    )
                } else {
                    Result::Err(ParseError::Incomplete)
                },
                Result::Err(e) => Result::Err(e),
            }
        } else {
            Result::Err(ParseError::UnknownDataType(t))
        }
    }
}

/// Where a row of `k` frames ends, or the failure that stops it: each
/// frame's end is the next frame's start. (The two guards against a
/// frame that does not advance can never be taken: a frame's end lies
/// strictly past its start; they only bound the recursion.)
pub open spec fn row_fin(s: Seq<u8>, pos: int, k: int) -> Result<int, ParseError>
    decreases s.len() - pos, 2int,
{
    if k <= 0 {
        Result::Ok(pos)
    } else {
        match frame_fin(s, pos) {
            Result::Ok(q) => if pos < q <= s.len() {
                row_fin(s, q, k - 1)
            } else {
                Result::Err(ParseError::Incomplete)
            },
            Result::Err(e) => Result::Err(e),
        }
    }
}

/// Decode one value framed as an integer line or as a colon-split
/// line: the integer or the verbatim string.
#[verifier::loop_isolation(false)]
#[verifier::rlimit(100)]
fn parse_leaf_mark(input: &[u8], pos: usize) -> (r: Result<(Value, usize), ParseError>)
    requires
        pos < input@.len(),
        is_leaf_tag(input@[pos as int]),
        input@[pos as int] == 58 || input@[pos as int] == 61,
    ensures
        (r matches Ok((v, p)) ==> value_wf(v@) && pos < p <= input@.len()),
        forall|v: ValueView|
            rt_ok(v) && enc(v).len() <= i64::MAX && #[trigger] frame_at(
                input@,
                pos as int,
                v,
            ) ==> (r matches Ok((w, p)) && w@ == v && p == pos + enc(v).len()),
        (match frame_fin(input@, pos as int) {
            Result::Ok(q) => r matches Ok((v, p)) && p == q,
            Result::Err(e) => r == Result::<(Value, usize), ParseError>::Err(e),
        }),
        (match null_form_at(input@, pos as int) {
            Option::Some(p) => r matches Ok((v, q)) && v@ == ValueView::NullV && q == p,
            Option::None => true,
        }),
    decreases input@.len() - pos, 0int,
{
    let tag = input[pos];
    let pos1 = pos + 1;
    proof {
        assert forall|v: ValueView|
            rt_ok(v) && enc(v).len() <= i64::MAX && #[trigger] frame_at(
                input@,
                pos as int,
                v,
            ) implies (input@[pos as int] == enc(v)[0] && frame_body(input@, pos as int, v)) by {
            lemma_enc_min(v);
            let w = input@.subrange(pos as int, pos + enc(v).len());
            assert(w[0] == input@[pos as int]);
            lemma_frame_body(input@, pos as int, v);
        }
    }
    match tag {
        58 => {
            match parse_integer(input, pos1) {
                Result::Err(e) => Result::Err(e),
                Result::Ok((i, p)) => Result::Ok((Value::Integer(i), p)),
            }
        }
        61 => {
            match parse_verbatim_string(input, pos1) {
                Result::Err(e) => Result::Err(e),
                Result::Ok((vs, p)) => Result::Ok((Value::VerbatimString(vs), p)),
            }
        }
        _ => {
            proof {
                assert(false);
            }
            Result::Err(ParseError::Incomplete)
        }
    }
}

/// Decode one value framed with a length prefix and a body line: the
/// bulk string or the bulk error.
#[verifier::loop_isolation(false)]
#[verifier::rlimit(100)]
fn parse_leaf_bulk(input: &[u8], pos: usize) -> (r: Result<(Value, usize), ParseError>)
    requires
        pos < input@.len(),
        is_leaf_tag(input@[pos as int]),
        input@[pos as int] == 36 || input@[pos as int] == 33,
    ensures
        (r matches Ok((v, p)) ==> value_wf(v@) && pos < p <= input@.len()),
        forall|v: ValueView|
            rt_ok(v) && enc(v).len() <= i64::MAX && #[trigger] frame_at(
                input@,
                pos as int,
                v,
            ) ==> (r matches Ok((w, p)) && w@ == v && p == pos + enc(v).len()),
        (match frame_fin(input@, pos as int) {
            Result::Ok(q) => r matches Ok((v, p)) && p == q,
            Result::Err(e) => r == Result::<(Value, usize), ParseError>::Err(e),
        }),
        (match null_form_at(input@, pos as int) {
            Option::Some(p) => r matches Ok((v, q)) && v@ == ValueView::NullV && q == p,
            Option::None => true,
        }),
    decreases input@.len() - pos, 0int,
{
    let tag = input[pos];
    let pos1 = pos + 1;
    proof {
        assert forall|v: ValueView|
            rt_ok(v) && enc(v).len() <= i64::MAX && #[trigger] frame_at(
                input@,
                pos as int,
                v,
            ) implies (input@[pos as int] == enc(v)[0] && frame_body(input@, pos as int, v)) by {
            lemma_enc_min(v);
            let w = input@.subrange(pos as int, pos + enc(v).len());
            assert(w[0] == input@[pos as int]);
            lemma_frame_body(input@, pos as int, v);
        }
    }
    match tag {
        36 => {
            proof {
                match line_result(input@, pos1 as int) {
                    Result::Ok((l0, p2)) => {
                        lemma_line_result_text_ok(input@, p2);
                    }
                    Result::Err(_) => {}
                }
            }
            match parse_bulk_string(input, pos1) {
                Result::Err(e) => Result::Err(e),
                Result::Ok((o, p)) => match o {
                    Option::Some(body) => Result::Ok((Value::BulkString(body), p)),
                    Option::None => Result::Ok((Value::Null, p)),
                },
            }
        }
        33 => {
            proof {
                match line_result(input@, pos1 as int) {
                    Result::Ok((l0, p2)) => {
                        lemma_line_result_text_ok(input@, p2);
                    }
                    Result::Err(_) => {}
                }
            }
            match parse_bulk_string(input, pos1) {
                Result::Err(e) => Result::Err(e),
                Result::Ok((o, p)) => match o {
                    Option::Some(body) => Result::Ok((Value::BulkError(body), p)),
                    Option::None => Result::Ok((Value::Null, p)),
                },
            }
        }
        _ => {
            proof {
                assert(false);
            }
            Result::Err(ParseError::Incomplete)
        }
    }
}

/// Decode one value framed with a payload byte or nothing: the null,
/// the boolean or the double.
#[verifier::loop_isolation(false)]
#[verifier::rlimit(100)]
fn parse_leaf_other(input: &[u8], pos: usize) -> (r: Result<(Value, usize), ParseError>)
    requires
        pos < input@.len(),
        is_leaf_tag(input@[pos as int]),
        input@[pos as int] == 95 || input@[pos as int] == 35 || input@[pos as int] == 44,
    ensures
        (r matches Ok((v, p)) ==> value_wf(v@) && pos < p <= input@.len()),
        forall|v: ValueView|
            rt_ok(v) && enc(v).len() <= i64::MAX && #[trigger] frame_at(
                input@,
                pos as int,
                v,
            ) ==> (r matches Ok((w, p)) && w@ == v && p == pos + enc(v).len()),
        (match frame_fin(input@, pos as int) {
            Result::Ok(q) => r matches Ok((v, p)) && p == q,
            Result::Err(e) => r == Result::<(Value, usize), ParseError>::Err(e),
        }),
        (match null_form_at(input@, pos as int) {
            Option::Some(p) => r matches Ok((v, q)) && v@ == ValueView::NullV && q == p,
            Option::None => true,
        }),
    decreases input@.len() - pos, 0int,
{
    let tag = input[pos];
    let pos1 = pos + 1;
    proof {
        assert forall|v: ValueView|
            rt_ok(v) && enc(v).len() <= i64::MAX && #[trigger] frame_at(
                input@,
                pos as int,
                v,
            ) implies (input@[pos as int] == enc(v)[0] && frame_body(input@, pos as int, v)) by {
            lemma_enc_min(v);
            let w = input@.subrange(pos as int, pos + enc(v).len());
            assert(w[0] == input@[pos as int]);
            lemma_frame_body(input@, pos as int, v);
        }
    }
    match tag {
        95 => {
            match parse_null(input, pos1) {
                Result::Err(e) => Result::Err(e),
                Result::Ok((_u, p)) => Result::Ok((Value::Null, p)),
            }
        }
        35 => {
            match parse_bool(input, pos1) {
                Result::Err(e) => Result::Err(e),
                Result::Ok((b, p)) => Result::Ok((Value::Bool(b), p)),
            }
        }
        44 => {
            proof {
                lemma_line_result_text_ok(input@, pos1 as int);
            }
            match parse_double(input, pos1) {
                Result::Err(e) => Result::Err(e),
                Result::Ok((f, p)) => Result::Ok((Value::Double(f), p)),
            }
        }
        _ => {
            proof {
                assert(false);
            }
            Result::Err(ParseError::Incomplete)
        }
    }
}

/// Decode exactly one value from the input at `pos`: one tag byte,
/// then the frame that the tag announces. The second clause is the
/// decoder's completeness: wherever the input carries the exact
/// encoding of a well-formed plain value, that value comes back and
/// exactly its frame is consumed; together with the encoder's
/// contract it says that decoding an encoding returns the value.
/// Whether the byte opens one of the frames without nested values.
pub open spec fn is_leaf_tag(b: u8) -> bool {
    b == 43 || b == 45 || b == 58 || b == 36 || b == 95 || b == 35 || b == 44 || b == 40 || b == 33
        || b == 61
}

/// Decode one value framed as a single line: the simple string, the
/// error, the integer, the big number or the verbatim string.
#[verifier::loop_isolation(false)]
#[verifier::rlimit(100)]
fn parse_leaf_line(input: &[u8], pos: usize) -> (r: Result<(Value, usize), ParseError>)
    requires
        pos < input@.len(),
        is_leaf_tag(input@[pos as int]),
        input@[pos as int] == 43 || input@[pos as int] == 45 || input@[pos as int] == 40,
    ensures
        (r matches Ok((v, p)) ==> value_wf(v@) && pos < p <= input@.len()),
        forall|v: ValueView|
            rt_ok(v) && enc(v).len() <= i64::MAX && #[trigger] frame_at(
                input@,
                pos as int,
                v,
            ) ==> (r matches Ok((w, p)) && w@ == v && p == pos + enc(v).len()),
        (match frame_fin(input@, pos as int) {
            Result::Ok(q) => r matches Ok((v, p)) && p == q,
            Result::Err(e) => r == Result::<(Value, usize), ParseError>::Err(e),
        }),
        (match null_form_at(input@, pos as int) {
            Option::Some(p) => r matches Ok((v, q)) && v@ == ValueView::NullV && q == p,
            Option::None => true,
        }),
    decreases input@.len() - pos, 0int,
{
    let tag = input[pos];
    let pos1 = pos + 1;
    proof {
        assert forall|v: ValueView|
            rt_ok(v) && enc(v).len() <= i64::MAX && #[trigger] frame_at(
                input@,
                pos as int,
                v,
            ) implies (input@[pos as int] == enc(v)[0] && frame_body(input@, pos as int, v)) by {
            lemma_enc_min(v);
            let w = input@.subrange(pos as int, pos + enc(v).len());
            assert(w[0] == input@[pos as int]);
            lemma_frame_body(input@, pos as int, v);
        }
    }
    match tag {
        43 => {
            match parse_simple_string(input, pos1) {
                Result::Err(e) => Result::Err(e),
                Result::Ok((line, p)) => Result::Ok((Value::String(line), p)),
            }
        }
        45 => {
            match parse_simple_string(input, pos1) {
                Result::Err(e) => Result::Err(e),
                Result::Ok((line, p)) => Result::Ok((Value::Error(line), p)),
            }
        }
        40 => {
            match parse_big_number(input, pos1) {
                Result::Err(e) => Result::Err(e),
                Result::Ok((line, p)) => Result::Ok((Value::BigNumber(line), p)),
            }
        }
        _ => {
            proof {
                assert(false);
            }
            Result::Err(ParseError::Incomplete)
        }
    }
}

/// Decode exactly one value from the input at `pos`: one tag byte,
/// then the frame that the tag announces. The second clause is the
/// decoder's completeness: wherever the input carries the exact
/// encoding of a well-formed plain value, that value comes back and
/// exactly its frame is consumed; together with the encoder's
/// contract it says that decoding an encoding returns the value.
#[verifier::loop_isolation(false)]
#[verifier::rlimit(100)]
pub fn parse(input: &[u8], pos: usize) -> (r: Result<(Value, usize), ParseError>)
    requires
        pos <= input@.len(),
    ensures
        (r matches Ok((v, p)) ==> value_wf(v@) && pos < p <= input@.len()),
        forall|v: ValueView|
            rt_ok(v) && enc(v).len() <= i64::MAX && #[trigger] frame_at(
                input@,
                pos as int,
                v,
            ) ==> (r matches Ok((w, p)) && w@ == v && p == pos + enc(v).len()),
        pos == input@.len() ==> r == Result::<(Value, usize), ParseError>::Err(
            ParseError::Incomplete,
        ),
        pos < input@.len() && !is_tag(input@[pos as int]) ==> r == Result::<
            (Value, usize),
            ParseError,
        >::Err(ParseError::UnknownDataType(input@[pos as int])),
        (match frame_fin(input@, pos as int) {
            Result::Ok(q) => r matches Ok((v, p)) && p == q,
            Result::Err(e) => r == Result::<(Value, usize), ParseError>::Err(e),
        }),
        (match null_form_at(input@, pos as int) {
            Option::Some(p) => r matches Ok((v, q)) && v@ == ValueView::NullV && q == p,
            Option::None => true,
        }),
    decreases input@.len() - pos, 2int,
{
    if pos == input.len() {
        return Result::Err(ParseError::Incomplete);
    }
    let tag = input[pos];
    proof {
        assert forall|v: ValueView|
            rt_ok(v) && enc(v).len() <= i64::MAX && #[trigger] frame_at(
                input@,
                pos as int,
                v,
            ) implies (input@[pos as int] == enc(v)[0] && is_tag(enc(v)[0])) by {
            lemma_enc_min(v);
            let w = input@.subrange(pos as int, pos + enc(v).len());
            assert(w[0] == input@[pos as int]);
        }
    }
    if tag == 43 || tag == 45 || tag == 40 {
        return parse_leaf_line(input, pos);
    }
    if tag == 58 || tag == 61 {
        return parse_leaf_mark(input, pos);
    }
    if tag == 36 || tag == 33 {
        return parse_leaf_bulk(input, pos);
    }
    if tag == 95 || tag == 35 || tag == 44 {
        return parse_leaf_other(input, pos);
    }
    if tag == 42 || tag == 62 {
        return parse_counted(input, pos);
    }
    if tag == 37 || tag == 126 {
        return parse_keyed(input, pos);
    }
    Result::Err(ParseError::UnknownDataType(tag))
}

/// Decode one counted row frame: the array or the push.
#[verifier::loop_isolation(false)]
#[verifier::rlimit(100)]
fn parse_counted(input: &[u8], pos: usize) -> (r: Result<(Value, usize), ParseError>)
    requires
        pos < input@.len(),
        input@[pos as int] == 42 || input@[pos as int] == 62,
    ensures
        (r matches Ok((v, p)) ==> value_wf(v@) && pos < p <= input@.len()),
        forall|v: ValueView|
            rt_ok(v) && enc(v).len() <= i64::MAX && #[trigger] frame_at(
                input@,
                pos as int,
                v,
            ) ==> (r matches Ok((w, p)) && w@ == v && p == pos + enc(v).len()),
        (match frame_fin(input@, pos as int) {
            Result::Ok(q) => r matches Ok((v, p)) && p == q,
            Result::Err(e) => r == Result::<(Value, usize), ParseError>::Err(e),
        }),
        (match null_form_at(input@, pos as int) {
            Option::Some(p) => r matches Ok((v, q)) && v@ == ValueView::NullV && q == p,
            Option::None => true,
        }),
    decreases input@.len() - pos, 1int,
{
    let tag = input[pos];
    let pos1 = pos + 1;
    proof {
        lemma_int_result_bounds(input@, pos1 as int);
        assert forall|v: ValueView|
            rt_ok(v) && enc(v).len() <= i64::MAX && #[trigger] frame_at(
                input@,
                pos as int,
                v,
            ) implies (input@[pos as int] == enc(v)[0] && frame_body(input@, pos as int, v) && (
            v matches ValueView::DictV(mm) ==> dict_of(mm) == mm) && (
            v matches ValueView::UniqV(uu) ==> uniq_of(uu) == uu)) by {
            lemma_enc_min(v);
            let w = input@.subrange(pos as int, pos + enc(v).len());
            assert(w[0] == input@[pos as int]);
            lemma_frame_body(input@, pos as int, v);
            match v {
                ValueView::DictV(mm) => lemma_dict_of_sorted(mm),
                ValueView::UniqV(uu) => lemma_uniq_of_sorted(uu),
                _ => {}
            }
        }
    }
    match tag {
        42 => {
            match parse_array(input, pos1) {
                Result::Err(e) => {
                    return Result::Err(e);
                },
                Result::Ok((o, p)) => match o {
                    Option::Some(a) => {
                        return Result::Ok((Value::Array(a), p));
                    },
                    Option::None => {
                        return Result::Ok((Value::Null, p));
                    },
                },
            }
        }
        62 => {
            match parse_array(input, pos1) {
                Result::Err(e) => {
                    return Result::Err(e);
                },
                Result::Ok((o, p)) => match o {
                    Option::Some(a) => {
                        return Result::Ok((Value::Push(a), p));
                    },
                    Option::None => {
                        return Result::Ok((Value::Null, p));
                    },
                },
            }
        }
        _ => {
            proof {
                assert(false);
            }
            Result::Err(ParseError::Incomplete)
        }
    }
}

/// A map frame at the cursor is a map value: its sorted entries sit
/// counted after the tag, and they denote themselves.
proof fn lemma_dict_frame(s: Seq<u8>, pos: int, v: ValueView)
    requires
        rt_ok(v),
        frame_at(s, pos, v),
        enc(v).len() <= i64::MAX,
        0 <= pos < s.len(),
        s[pos] == 37,
    ensures
        v matches ValueView::DictV(mm) && rt_ok_pairs(mm) && enc_pairs(mm).len() <= i64::MAX
            && counted_pairs_at(s, pos + 1, mm) && dict_of(mm) == mm && enc(v).len() == 1 + dec_u(
            mm.len(),
        ).len() + 2 + enc_pairs(mm).len(),
{
    lemma_enc_min(v);
    let w = s.subrange(pos, pos + enc(v).len());
    assert(w[0] == s[pos]);
    match v {
        ValueView::DictV(mm) => {
            lemma_frame_body(s, pos, v);
            lemma_dict_of_sorted(mm);
            assert forall|ix: int| 0 <= ix < mm.len() implies rt_ok(#[trigger] mm[ix].0) && rt_ok(
                mm[ix].1,
            ) by {}
        }
        _ => {
            assert(enc(v)[0] != 37);
        }
    }
}

/// A set frame at the cursor is a set value: its sorted elements sit
/// counted after the tag, and they denote themselves.
proof fn lemma_uniq_frame(s: Seq<u8>, pos: int, v: ValueView)
    requires
        rt_ok(v),
        frame_at(s, pos, v),
        enc(v).len() <= i64::MAX,
        0 <= pos < s.len(),
        s[pos] == 126,
    ensures
        v matches ValueView::UniqV(uu) && rt_ok_all(uu) && enc_seq(uu).len() <= i64::MAX
            && counted_seq_at(s, pos + 1, uu) && uniq_of(uu) == uu && enc(v).len() == 1 + dec_u(
            uu.len(),
        ).len() + 2 + enc_seq(uu).len(),
{
    lemma_enc_min(v);
    let w = s.subrange(pos, pos + enc(v).len());
    assert(w[0] == s[pos]);
    match v {
        ValueView::UniqV(uu) => {
            lemma_frame_body(s, pos, v);
            lemma_uniq_of_sorted(uu);
            assert forall|ix: int| 0 <= ix < uu.len() implies rt_ok(#[trigger] uu[ix]) by {}
        }
        _ => {
            assert(enc(v)[0] != 126);
        }
    }
}

/// Decode one keyed or deduplicated frame: the map or the set.
#[verifier::loop_isolation(false)]
#[verifier::rlimit(100)]
fn parse_keyed(input: &[u8], pos: usize) -> (r: Result<(Value, usize), ParseError>)
    requires
        pos < input@.len(),
        input@[pos as int] == 37 || input@[pos as int] == 126,
    ensures
        (r matches Ok((v, p)) ==> value_wf(v@) && pos < p <= input@.len()),
        forall|v: ValueView|
            rt_ok(v) && enc(v).len() <= i64::MAX && #[trigger] frame_at(
                input@,
                pos as int,
                v,
            ) ==> (r matches Ok((w, p)) && w@ == v && p == pos + enc(v).len()),
        (match frame_fin(input@, pos as int) {
            Result::Ok(q) => r matches Ok((v, p)) && p == q,
            Result::Err(e) => r == Result::<(Value, usize), ParseError>::Err(e),
        }),
        (match null_form_at(input@, pos as int) {
            Option::Some(p) => r matches Ok((v, q)) && v@ == ValueView::NullV && q == p,
            Option::None => true,
        }),
    decreases input@.len() - pos, 1int,
{
    let tag = input[pos];
    let pos1 = pos + 1;
    proof {
        lemma_int_result_bounds(input@, pos1 as int);
        assert forall|v: ValueView|
            rt_ok(v) && enc(v).len() <= i64::MAX && #[trigger] frame_at(
                input@,
                pos as int,
                v,
            ) implies (input@[pos as int] == enc(v)[0] && frame_body(input@, pos as int, v) && (
            v matches ValueView::DictV(mm) ==> dict_of(mm) == mm) && (
            v matches ValueView::UniqV(uu) ==> uniq_of(uu) == uu)) by {
            lemma_enc_min(v);
            let w = input@.subrange(pos as int, pos + enc(v).len());
            assert(w[0] == input@[pos as int]);
            lemma_frame_body(input@, pos as int, v);
            match v {
                ValueView::DictV(mm) => lemma_dict_of_sorted(mm),
                ValueView::UniqV(uu) => lemma_uniq_of_sorted(uu),
                _ => {}
            }
        }
    }
    match tag {
        37 => {
            match parse_map(input, pos1) {
                Result::Err(e) => {
                    proof {
                        assert forall|v: ValueView|
                            rt_ok(v) && enc(v).len() <= i64::MAX && #[trigger] frame_at(
                                input@,
                                pos as int,
                                v,
                            ) implies false by {
                            lemma_dict_frame(input@, pos as int, v);
                        }
                    }
                    return Result::Err(e);
                },
                Result::Ok((m, p)) => {
                    let out = Value::Dict(m);
                    proof {
                        assert forall|v: ValueView|
                            rt_ok(v) && enc(v).len() <= i64::MAX && #[trigger] frame_at(
                                input@,
                                pos as int,
                                v,
                            ) implies (out@ == v && p == pos + enc(v).len()) by {
                            lemma_dict_frame(input@, pos as int, v);
                            let mm = v->DictV_0;
                            assert(counted_pairs_at(input@, pos1 as int, mm));
                            assert(out@ == ValueView::DictV(dict_of(mm)));
                        }
                        assert(value_wf(out@));
                    }
                    return Result::Ok((out, p));
                }
            }
        }
        126 => {
            match parse_set(input, pos1) {
                Result::Err(e) => {
                    proof {
                        assert forall|v: ValueView|
                            rt_ok(v) && enc(v).len() <= i64::MAX && #[trigger] frame_at(
                                input@,
                                pos as int,
                                v,
                            ) implies false by {
                            lemma_uniq_frame(input@, pos as int, v);
                        }
                    }
                    return Result::Err(e);
                },
                Result::Ok((m, p)) => {
                    let out = Value::Uniq(m);
                    proof {
                        assert forall|v: ValueView|
                            rt_ok(v) && enc(v).len() <= i64::MAX && #[trigger] frame_at(
                                input@,
                                pos as int,
                                v,
                            ) implies (out@ == v && p == pos + enc(v).len()) by {
                            lemma_uniq_frame(input@, pos as int, v);
                            let uu = v->UniqV_0;
                            assert(counted_seq_at(input@, pos1 as int, uu));
                            assert(out@ == ValueView::UniqV(uniq_of(uu)));
                        }
                        assert(value_wf(out@));
                    }
                    return Result::Ok((out, p));
                }
            }
        }
        _ => {
            proof {
                assert(false);
            }
            Result::Err(ParseError::Incomplete)
        }
    }
}

/// What the bytes after the tag of a frame look like, kind by kind.
pub open spec fn frame_body(s: Seq<u8>, pos: int, v: ValueView) -> bool {
    match v {
        ValueView::StrV(b) => line_result(s, pos + 1) == Result::<(Seq<u8>, int), ParseError>::Ok(
            (b, pos + enc(v).len()),
        ),
        ValueView::ErrV(b) => line_result(s, pos + 1) == Result::<(Seq<u8>, int), ParseError>::Ok(
            (b, pos + enc(v).len()),
        ),
        ValueView::BigV(b) => line_result(s, pos + 1) == Result::<(Seq<u8>, int), ParseError>::Ok(
            (b, pos + enc(v).len()),
        ),
        ValueView::IntV(i) => int_result(s, pos + 1) == Result::<(i64, int), ParseError>::Ok(
            (i, pos + enc(v).len()),
        ),
        ValueView::BulkV(b) => int_result(s, pos + 1) == Result::<(i64, int), ParseError>::Ok(
            (b.len() as i64, pos + 1 + dec_u(b.len()).len() + 2),
        ) && line_result(s, pos + 1 + dec_u(b.len()).len() + 2) == Result::<
            (Seq<u8>, int),
            ParseError,
        >::Ok((b, pos + enc(v).len())),
        ValueView::BulkErrV(b) => int_result(s, pos + 1) == Result::<(i64, int), ParseError>::Ok(
            (b.len() as i64, pos + 1 + dec_u(b.len()).len() + 2),
        ) && line_result(s, pos + 1 + dec_u(b.len()).len() + 2) == Result::<
            (Seq<u8>, int),
            ParseError,
        >::Ok((b, pos + enc(v).len())),
        ValueView::NullV => s.len() - (pos + 1) >= 2 && pos + enc(v).len() == pos + 3,
        ValueView::BoolV(b) => s.len() - (pos + 1) >= 3 && (s[pos + 1] == 116 <==> b) && pos + enc(
            v,
        ).len() == pos + 4,
        ValueView::DblV(f) => f matches FloatView::RealV(t) && line_result(s, pos + 1)
            == Result::<(Seq<u8>, int), ParseError>::Ok((t, pos + enc(v).len()))
            && !crate::numbers::is_nan_text(t) && crate::numbers::is_float_text(t),
        ValueView::ArrV(a) => counted_seq_at(s, pos + 1, a) && pos + enc(v).len() == pos + 1
            + dec_u(a.len()).len() + 2 + enc_seq(a).len() && enc_seq(a).len() <= enc(v).len(),
        ValueView::PushV(a) => counted_seq_at(s, pos + 1, a) && pos + enc(v).len() == pos + 1
            + dec_u(a.len()).len() + 2 + enc_seq(a).len() && enc_seq(a).len() <= enc(v).len(),
        ValueView::UniqV(a) => counted_seq_at(s, pos + 1, a) && pos + enc(v).len() == pos + 1
            + dec_u(a.len()).len() + 2 + enc_seq(a).len() && enc_seq(a).len() <= enc(v).len(),
        ValueView::DictV(m) => counted_pairs_at(s, pos + 1, m) && pos + enc(v).len() == pos + 1
            + dec_u(m.len()).len() + 2 + enc_pairs(m).len() && enc_pairs(m).len() <= enc(v).len(),
        ValueView::VerbV(_, _) => true,
    }
}

/// Part of a window of the input, read off by index.
proof fn lemma_sub_at(s: Seq<u8>, pos: int, off: int, part: Seq<u8>, whole: Seq<u8>)
    requires
        0 <= pos,
        0 <= off,
        off + part.len() <= whole.len(),
        pos + whole.len() <= s.len(),
        s.subrange(pos, pos + whole.len()) == whole,
        forall|j: int| 0 <= j < part.len() ==> #[trigger] part[j] == whole[off + j],
    ensures
        s.subrange(pos + off, pos + off + part.len()) == part,
{
    let w = s.subrange(pos, pos + whole.len());
    assert forall|j: int| 0 <= j < part.len() implies s.subrange(
        pos + off,
        pos + off + part.len(),
    )[j] == part[j] by {
        assert(w[off + j] == s[pos + off + j]);
        assert(s.subrange(pos + off, pos + off + part.len())[j] == s[pos + off + j]);
    }
    assert(s.subrange(pos + off, pos + off + part.len()) =~= part);
}

/// A well-formed plain value's frame pins the body that follows its
/// tag byte.
pub proof fn lemma_frame_body(s: Seq<u8>, pos: int, v: ValueView)
    requires
        rt_ok(v),
        frame_at(s, pos, v),
        enc(v).len() <= i64::MAX,
    ensures
        frame_body(s, pos, v),
{
    let e = enc(v);
    match v {
        ValueView::StrV(b) => {
            let part = b + crlf();
            assert forall|j: int| 0 <= j < part.len() implies #[trigger] part[j] == e[1 + j] by {}
            lemma_sub_at(s, pos, 1, part, e);
            lemma_line_at(s, pos + 1, b);
        }
        ValueView::ErrV(b) => {
            let part = b + crlf();
            assert forall|j: int| 0 <= j < part.len() implies #[trigger] part[j] == e[1 + j] by {}
            lemma_sub_at(s, pos, 1, part, e);
            lemma_line_at(s, pos + 1, b);
        }
        ValueView::BigV(b) => {
            let part = b + crlf();
            assert forall|j: int| 0 <= j < part.len() implies #[trigger] part[j] == e[1 + j] by {}
            lemma_sub_at(s, pos, 1, part, e);
            lemma_line_at(s, pos + 1, b);
        }
        ValueView::IntV(i) => {
            let part = dec_i64(i as int) + crlf();
            assert forall|j: int| 0 <= j < part.len() implies #[trigger] part[j] == e[1 + j] by {}
            lemma_sub_at(s, pos, 1, part, e);
            lemma_int_at(s, pos + 1, i as int);
        }
        ValueView::BulkV(b) => {
            let c = dec_u(b.len()) + crlf();
            assert forall|j: int| 0 <= j < c.len() implies #[trigger] c[j] == e[1 + j] by {}
            lemma_sub_at(s, pos, 1, c, e);
            assert(dec_i64(b.len() as int) == dec_u(b.len()));
            lemma_int_at(s, pos + 1, b.len() as int);
            let part = b + crlf();
            assert forall|j: int| 0 <= j < part.len() implies #[trigger] part[j] == e[1 + c.len()
                + j] by {}
            lemma_sub_at(s, pos, 1 + c.len() as int, part, e);
            lemma_line_at(s, pos + 1 + c.len(), b);
        }
        ValueView::BulkErrV(b) => {
            let c = dec_u(b.len()) + crlf();
            assert forall|j: int| 0 <= j < c.len() implies #[trigger] c[j] == e[1 + j] by {}
            lemma_sub_at(s, pos, 1, c, e);
            assert(dec_i64(b.len() as int) == dec_u(b.len()));
            lemma_int_at(s, pos + 1, b.len() as int);
            let part = b + crlf();
            assert forall|j: int| 0 <= j < part.len() implies #[trigger] part[j] == e[1 + c.len()
                + j] by {}
            lemma_sub_at(s, pos, 1 + c.len() as int, part, e);
            lemma_line_at(s, pos + 1 + c.len(), b);
        }
        ValueView::NullV => {}
        ValueView::BoolV(b) => {
            let w = s.subrange(pos, pos + e.len());
            assert(w[1] == (if b {
                116u8
            } else {
                102u8
            }));
            assert(s[pos + 1] == w[1]);
        }
        ValueView::DblV(f) => {
            let t = f->RealV_0;
            let part = t + crlf();
            assert forall|j: int| 0 <= j < part.len() implies #[trigger] part[j] == e[1 + j] by {}
            lemma_sub_at(s, pos, 1, part, e);
            lemma_line_at(s, pos + 1, t);
        }
        ValueView::ArrV(a) => {
            let c = dec_u(a.len()) + crlf();
            assert forall|j: int| 0 <= j < c.len() implies #[trigger] c[j] == e[1 + j] by {}
            lemma_sub_at(s, pos, 1, c, e);
            assert forall|j: int| 0 <= j < enc_seq(a).len() implies #[trigger] enc_seq(a)[j] == e[1
                + c.len() + j] by {}
            lemma_sub_at(s, pos, 1 + c.len() as int, enc_seq(a), e);
        }
        ValueView::PushV(a) => {
            let c = dec_u(a.len()) + crlf();
            assert forall|j: int| 0 <= j < c.len() implies #[trigger] c[j] == e[1 + j] by {}
            lemma_sub_at(s, pos, 1, c, e);
            assert forall|j: int| 0 <= j < enc_seq(a).len() implies #[trigger] enc_seq(a)[j] == e[1
                + c.len() + j] by {}
            lemma_sub_at(s, pos, 1 + c.len() as int, enc_seq(a), e);
        }
        ValueView::UniqV(a) => {
            let c = dec_u(a.len()) + crlf();
            assert forall|j: int| 0 <= j < c.len() implies #[trigger] c[j] == e[1 + j] by {}
            lemma_sub_at(s, pos, 1, c, e);
            assert forall|j: int| 0 <= j < enc_seq(a).len() implies #[trigger] enc_seq(a)[j] == e[1
                + c.len() + j] by {}
            lemma_sub_at(s, pos, 1 + c.len() as int, enc_seq(a), e);
        }
        ValueView::DictV(m) => {
            let c = dec_u(m.len()) + crlf();
            assert forall|j: int| 0 <= j < c.len() implies #[trigger] c[j] == e[1 + j] by {}
            lemma_sub_at(s, pos, 1, c, e);
            assert forall|j: int| 0 <= j < enc_pairs(m).len() implies #[trigger] enc_pairs(
                m,
            )[j] == e[1 + c.len() + j] by {}
            lemma_sub_at(s, pos, 1 + c.len() as int, enc_pairs(m), e);
        }
        ValueView::VerbV(_, _) => {}
    }
}

} // verus!
