use vstd::prelude::*;
use vstd::slice::{slice_subrange, slice_to_vec};
use crate::dict::{dict_insert, lemma_dict_insert_props, pairs_wf};
use crate::digits::{all_digits, lemma_dec_prefix_bound, spec_dec_value, spec_is_digit};
use crate::grammar::{
    digits_end, items_then, lemma_digits_end, lemma_parse_advances, spec_parse, spec_parse_items,
    spec_parse_pairs, spec_value_as_key, SpecItems, SpecOutcome, SpecPairs, SpecReason,
};
use crate::types::{
    entries_sorted, spec_dict_insert, view_list, view_pairs, view_value, BencodexDictionary, BencodexKey, BencodexList,
    BencodexValue, BigInt, SpecValue, DIGIT_NINE, DIGIT_ZERO, MARK_COLON, MARK_DICT, MARK_END,
    MARK_FALSE, MARK_LIST, MARK_MINUS, MARK_NULL, MARK_NUMBER, MARK_TEXT, MARK_TRUE,
};
use crate::utf8::validate_utf8;

verus! {

/// Why decoding failed: a malformed structure, or a specific unexpected
/// byte together with its absolute offset in the input.
#[derive(Debug, PartialEq, Eq)]
pub enum DecodeErrorReason {
    InvalidBencodexValue,
    UnexpectedToken { token: u8, point: usize },
}

/// The error a failed decode returns.
#[derive(Debug, PartialEq, Eq)]
pub struct DecodeError {
    pub reason: DecodeErrorReason,
}

impl View for DecodeErrorReason {
    type V = SpecReason;

    open spec fn view(&self) -> SpecReason {
        match self {
            DecodeErrorReason::InvalidBencodexValue => SpecReason::Invalid,
            DecodeErrorReason::UnexpectedToken { token, point } => SpecReason::Unexpected(
                *token,
                *point as int,
            ),
        }
    }
}

impl View for DecodeError {
    type V = SpecReason;

    open spec fn view(&self) -> SpecReason {
        self.reason@
    }
}

/// The contract every production of the decoder meets: a success returns
/// exactly the value and extent that the reference grammar assigns to this
/// position, and a failure returns exactly the grammar's reason.
pub open spec fn decode_result_matches(
    s: Seq<u8>,
    pos: int,
    r: Result<(BencodexValue, usize), DecodeError>,
) -> bool {
    match r {
        Result::Ok((v, size)) => spec_parse(s, pos) == SpecOutcome::Found(
            view_value(v),
            pos + size,
        ) && view_value(v).wf(),
        Result::Err(e) => spec_parse(s, pos) == SpecOutcome::Bad(e@),
    }
}

/// The contract of a whole-input decode: the result is the value the
/// grammar assigns at position zero, or the grammar's failure reason.
pub open spec fn spec_decoded(s: Seq<u8>, r: Result<BencodexValue, DecodeError>) -> bool {
    match r {
        Result::Ok(v) => match spec_parse(s, 0) {
            SpecOutcome::Found(w, n) => view_value(v) == w && w.wf(),
            SpecOutcome::Bad(_) => false,
        },
        Result::Err(e) => spec_parse(s, 0) == SpecOutcome::Bad(e@),
    }
}

pub(crate) fn invalid() -> (r: DecodeError)
    ensures
        r@ == SpecReason::Invalid,
{
    DecodeError { reason: DecodeErrorReason::InvalidBencodexValue }
}

pub(crate) fn unexpected(token: u8, point: usize) -> (r: DecodeError)
    ensures
        r@ == SpecReason::Unexpected(token, point as int),
{
    DecodeError { reason: DecodeErrorReason::UnexpectedToken { token, point } }
}

/// Scan to the end of the digit run that starts at `start`.
pub(crate) fn digits_run_end(v: &[u8], start: usize) -> (r: usize)
    requires
        start <= v@.len(),
    ensures
        r as int == digits_end(v@, start as int),
        start <= r <= v@.len(),
{
    let mut i: usize = start;
    while i < v.len()
        invariant
            start <= i <= v@.len(),
            digits_end(v@, start as int) == digits_end(v@, i as int),
        decreases v@.len() - i,
    {
        let b = v[i];
        if b < DIGIT_ZERO || b > DIGIT_NINE {
            return i;
        }
        i = i + 1;
    }
    i
}

/// Read the value of a digit run as a machine length; a run whose value
/// exceeds the machine's address range reports `None`.
pub(crate) fn parse_len(v: &[u8], start: usize, end: usize) -> (r: Option<usize>)
    requires
        start <= end <= v@.len(),
        all_digits(v@.subrange(start as int, end as int)),
    ensures
        r matches Some(n) ==> n as int == spec_dec_value(
            v@.subrange(start as int, end as int),
        ),
        r is None ==> spec_dec_value(v@.subrange(start as int, end as int)) > usize::MAX,
{
    let ghost d = v@.subrange(start as int, end as int);
    let mut result: usize = 0;
    let mut i: usize = start;
    while i < end
        invariant
            start <= i <= end <= v@.len(),
            d == v@.subrange(start as int, end as int),
            all_digits(d),
            result as int == spec_dec_value(d.take(i - start)),
        decreases end - i,
    {
        proof {
            assert(d[i - start] == v@[i as int]);
        }
        let b = v[i];
        let digit = (b - DIGIT_ZERO) as usize;
        proof {
            assert(d.take(i - start + 1).drop_last() =~= d.take(i - start));
            assert(d.take(i - start + 1).last() == d[i - start]);
        }
        let shifted = match result.checked_mul(10) {
            Some(x) => x,
            None => {
                proof {
                    lemma_dec_prefix_bound(d, i - start);
                }
                return None;
            }
        };
        let sum = match shifted.checked_add(digit) {
            Some(x) => x,
            None => {
                proof {
                    lemma_dec_prefix_bound(d, i - start);
                }
                return None;
            }
        };
        result = sum;
        i = i + 1;
    }
    proof {
        assert(d.take(end - start) =~= d);
    }
    Some(result)
}

/// Build the canonical arbitrary-precision integer denoted by a digit run
/// and a sign: leading zeros are dropped, and zero is never negative.
pub(crate) fn make_bigint(v: &[u8], ds: usize, de: usize, negative: bool) -> (r: BigInt)
    requires
        ds < de <= v@.len(),
        all_digits(v@.subrange(ds as int, de as int)),
    ensures
        r@ == if negative {
            -spec_dec_value(v@.subrange(ds as int, de as int))
        } else {
            spec_dec_value(v@.subrange(ds as int, de as int))
        },
{
    let digits = slice_to_vec(slice_subrange(v, ds, de));
    BigInt::from_decimal(digits, negative)
}

/// Decode the number production: the start position holds its marker.
fn decode_number_impl(v: &[u8], start: usize) -> (r: Result<(BencodexValue, usize), DecodeError>)
    requires
        start < v@.len(),
        v@[start as int] == MARK_NUMBER,
    ensures
        decode_result_matches(v@, start as int, r),
{
    let ghost s = v@;
    let n_in = v.len();
    let p = start + 1;
    if p >= n_in {
        return Err(invalid());
    }
    let negative = v[p] == MARK_MINUS;
    let ds = if negative {
        p + 1
    } else {
        p
    };
    if ds >= v.len() {
        return Err(invalid());
    }
    let b = v[ds];
    if b < DIGIT_ZERO || b > DIGIT_NINE {
        return Err(unexpected(b, ds));
    }
    let de = digits_run_end(v, ds);
    proof {
        lemma_digits_end(s, ds as int);
    }
    if de >= v.len() {
        return Err(invalid());
    }
    let t = v[de];
    if t != MARK_END {
        return Err(unexpected(t, de));
    }
    let number = make_bigint(v, ds, de, negative);
    Ok((BencodexValue::Number(number), de + 1 - start))
}

/// Decode the byte-string production: the start position holds the first
/// length digit.
fn decode_byte_string_impl(v: &[u8], start: usize) -> (r: Result<
    (BencodexValue, usize),
    DecodeError,
>)
    requires
        start < v@.len(),
        spec_is_digit(v@[start as int]),
    ensures
        decode_result_matches(v@, start as int, r),
{
    let ghost s = v@;
    let de = digits_run_end(v, start);
    proof {
        lemma_digits_end(s, start as int);
    }
    if de >= v.len() {
        return Err(invalid());
    }
    let t = v[de];
    if t != MARK_COLON {
        return Err(unexpected(t, de));
    }
    let n = match parse_len(v, start, de) {
        Some(n) => n,
        None => {
            return Err(invalid());
        }
    };
    if n > v.len() - (de + 1) {
        return Err(invalid());
    }
    let payload = slice_to_vec(slice_subrange(v, de + 1, de + 1 + n));
    Ok((BencodexValue::Binary(payload), de + 1 + n - start))
}

/// Decode the text production: the start position holds its marker. The
/// length-delimited span must be well-formed UTF-8.
fn decode_unicode_string_impl(v: &[u8], start: usize) -> (r: Result<
    (BencodexValue, usize),
    DecodeError,
>)
    requires
        start < v@.len(),
        v@[start as int] == MARK_TEXT,
    ensures
        decode_result_matches(v@, start as int, r),
{
    let ghost s = v@;
    let n_in = v.len();
    let p = start + 1;
    if p >= n_in {
        return Err(invalid());
    }
    let b = v[p];
    if b < DIGIT_ZERO || b > DIGIT_NINE {
        return Err(invalid());
    }
    let de = digits_run_end(v, p);
    proof {
        lemma_digits_end(s, p as int);
    }
    if de >= v.len() {
        return Err(invalid());
    }
    let t = v[de];
    if t != MARK_COLON {
        return Err(unexpected(t, de));
    }
    let n = match parse_len(v, p, de) {
        Some(n) => n,
        None => {
            return Err(invalid());
        }
    };
    if n > v.len() - (de + 1) {
        return Err(invalid());
    }
    let span = slice_subrange(v, de + 1, de + 1 + n);
    if !validate_utf8(span) {
        return Err(invalid());
    }
    let payload = slice_to_vec(span);
    Ok((BencodexValue::Text(payload), de + 1 + n - start))
}

/// Decode the list production: the start position holds its marker.
fn decode_list_impl(v: &[u8], start: usize) -> (r: Result<(BencodexValue, usize), DecodeError>)
    requires
        start < v@.len(),
        v@[start as int] == MARK_LIST,
    ensures
        decode_result_matches(v@, start as int, r),
    decreases v@.len() - start, 0int,
{
    let ghost s = v@;
    let ghost p0 = start as int + 1;
    let n_in = v.len();
    let mut list: BencodexList = Vec::new();
    let mut cur: usize = start + 1;
    proof {
        assert(view_list(list@) =~= Seq::<SpecValue>::empty());
        match spec_parse_items(s, cur as int) {
            SpecItems::Found(items, end) => {
                assert(view_list(list@) + items =~= items);
            }
            SpecItems::Bad(_) => {}
        }
        assert(spec_parse_items(s, p0) == items_then(
            view_list(list@),
            spec_parse_items(s, cur as int),
        ));
    }
    while cur < v.len() && v[cur] != MARK_END
        invariant
            start as int + 1 <= cur as int,
            cur as int <= s.len(),
            s == v@,
            start < s.len(),
            s[start as int] == MARK_LIST,
            p0 == start as int + 1,
            spec_parse_items(s, p0) == items_then(
                view_list(list@),
                spec_parse_items(s, cur as int),
            ),
            forall|i: int|
                0 <= i < view_list(list@).len() ==> (#[trigger] view_list(list@)[i]).wf(),
        decreases s.len() - cur,
    {
        match decode_impl(v, cur) {
            Result::Err(e) => {
                proof {
                    assert(spec_parse_items(s, cur as int) == SpecItems::Bad(e@));
                }
                return Err(e);
            }
            Result::Ok((val, size)) => {
                proof {
                    lemma_parse_advances(s, cur as int);
                    let vv = view_value(val);
                    let next = cur as int + size;
                    assert(spec_parse_items(s, cur as int) == items_then(
                        seq![vv],
                        spec_parse_items(s, next),
                    ));
                    crate::types::lemma_view_list_push(list@, val);
                    match spec_parse_items(s, next) {
                        SpecItems::Found(items, end) => {
                            assert((view_list(list@) + (seq![vv] + items)) =~= (view_list(
                                list@,
                            ).push(vv) + items));
                            assert(view_list(list@).push(vv) =~= view_list(list@) + seq![vv]);
                        }
                        SpecItems::Bad(_) => {}
                    }
                }
                list.push(val);
                cur = cur + size;
            }
        }
    }
    if cur >= v.len() {
        return Err(invalid());
    }
    proof {
        assert(s[cur as int] == MARK_END);
        assert(spec_parse_items(s, cur as int) == SpecItems::Found(
            Seq::<SpecValue>::empty(),
            cur as int + 1,
        ));
        assert(view_list(list@) + Seq::<SpecValue>::empty() =~= view_list(list@));
        assert(spec_parse_items(s, p0) == SpecItems::Found(view_list(list@), cur as int + 1));
    }
    Ok((BencodexValue::List(list), cur + 1 - start))
}

/// Decode the dictionary production: the start position holds its marker.
/// Keys must decode to binary or text values; a repeated key takes the
/// later value.
fn decode_dict_impl(v: &[u8], start: usize) -> (r: Result<(BencodexValue, usize), DecodeError>)
    requires
        start < v@.len(),
        v@[start as int] == MARK_DICT,
    ensures
        decode_result_matches(v@, start as int, r),
    decreases v@.len() - start, 0int,
{
    let ghost s = v@;
    let ghost p0 = start as int + 1;
    let n_in = v.len();
    let mut entries: BencodexDictionary = Vec::new();
    let mut cur: usize = start + 1;
    proof {
        assert(view_pairs(entries@) =~= Seq::<(crate::types::SpecKey, SpecValue)>::empty());
    }
    while cur < v.len() && v[cur] != MARK_END
        invariant
            start as int + 1 <= cur as int,
            cur as int <= s.len(),
            s == v@,
            start < s.len(),
            s[start as int] == MARK_DICT,
            p0 == start as int + 1,
            spec_parse_pairs(s, p0, Seq::empty()) == spec_parse_pairs(
                s,
                cur as int,
                view_pairs(entries@),
            ),
            entries_sorted(view_pairs(entries@)),
            pairs_wf(view_pairs(entries@)),
        decreases s.len() - cur,
    {
        let ghost acc = view_pairs(entries@);
        let ghost cur0 = cur as int;
        let (kval, ksize) = match decode_impl(v, cur) {
            Result::Err(e) => {
                proof {
                    assert(spec_parse_pairs(s, cur0, acc) == SpecPairs::Bad(e@));
                }
                return Err(e);
            }
            Result::Ok(p) => p,
        };
        let ghost kv = view_value(kval);
        let ghost kp = cur0 + ksize as int;
        proof {
            lemma_parse_advances(s, cur0);
        }
        let key = match kval {
            BencodexValue::Binary(b) => BencodexKey::Binary(b),
            BencodexValue::Text(t) => BencodexKey::Text(t),
            _ => {
                proof {
                    assert(spec_value_as_key(kv) is None);
                    assert(spec_parse_pairs(s, cur0, acc) == SpecPairs::Bad(SpecReason::Invalid));
                }
                return Err(invalid());
            }
        };
        let ghost gk = key@;
        proof {
            assert(spec_value_as_key(kv) == Option::Some(gk));
        }
        let kcur = cur + ksize;
        let (val, vsize) = match decode_impl(v, kcur) {
            Result::Err(e) => {
                proof {
                    assert(spec_parse(s, kp) == SpecOutcome::Bad(e@));
                    assert(spec_parse_pairs(s, cur0, acc) == SpecPairs::Bad(e@));
                }
                return Err(e);
            }
            Result::Ok(p) => p,
        };
        let ghost gv = view_value(val);
        proof {
            lemma_parse_advances(s, kp);
            let vp = kp + vsize as int;
            assert(spec_parse_pairs(s, cur0, acc) == spec_parse_pairs(
                s,
                vp,
                spec_dict_insert(acc, gk, gv),
            ));
            lemma_dict_insert_props(acc, gk, gv);
        }
        dict_insert(&mut entries, key, val);
        cur = kcur + vsize;
    }
    if cur >= v.len() {
        return Err(invalid());
    }
    proof {
        assert(s[cur as int] == MARK_END);
        assert(spec_parse_pairs(s, cur as int, view_pairs(entries@)) == SpecPairs::Found(
            view_pairs(entries@),
            cur as int + 1,
        ));
    }
    Ok((BencodexValue::Dictionary(entries), cur + 1 - start))
}

/// Decode one value at `start`: a marker byte dispatches to one of the
/// seven productions.
fn decode_impl(v: &[u8], start: usize) -> (r: Result<(BencodexValue, usize), DecodeError>)
    ensures
        decode_result_matches(v@, start as int, r),
    decreases v@.len() - start, 1int,
{
    if start >= v.len() {
        return Err(invalid());
    }
    let b = v[start];
    if b == MARK_DICT {
        decode_dict_impl(v, start)
    } else if b == MARK_LIST {
        decode_list_impl(v, start)
    } else if b == MARK_TEXT {
        decode_unicode_string_impl(v, start)
    } else if b == MARK_NUMBER {
        decode_number_impl(v, start)
    } else if b >= DIGIT_ZERO && b <= DIGIT_NINE {
        decode_byte_string_impl(v, start)
    } else if b == MARK_TRUE {
        Ok((BencodexValue::Boolean(true), 1))
    } else if b == MARK_FALSE {
        Ok((BencodexValue::Boolean(false), 1))
    } else if b == MARK_NULL {
        Ok((BencodexValue::Null, 1))
    } else {
        Err(unexpected(b, start))
    }
}

/// Decode one value from the front of the input. The result is exactly the
/// value the reference grammar assigns at position zero, well-formed under
/// the data model's invariant; a failure carries exactly the grammar's
/// reason. Bytes after the first value are ignored.
pub fn decode(bytes: &[u8]) -> (r: Result<BencodexValue, DecodeError>)
    ensures
        spec_decoded(bytes@, r),
{
    match decode_impl(bytes, 0) {
        Result::Ok((v, _)) => Ok(v),
        Result::Err(e) => Err(e),
    }
}

/// Anything that can be decoded as a whole buffer.
pub trait Decode {
    fn decode(self) -> Result<BencodexValue, DecodeError>;
}

impl Decode for Vec<u8> {
    fn decode(self) -> (r: Result<BencodexValue, DecodeError>)
        ensures
            spec_decoded(self@, r),
    {
        decode(self.as_slice())
    }
}

} // verus!
