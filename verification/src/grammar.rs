use vstd::prelude::*;
use crate::digits::{
    all_digits, spec_dec_digits, spec_dec_value, spec_is_digit, lemma_dec_value_nonneg,
};
use crate::types::{
    SpecKey, SpecValue, spec_dict_insert, MARK_COLON, MARK_DICT, MARK_END, MARK_FALSE, MARK_LIST,
    MARK_MINUS, MARK_NULL, MARK_NUMBER, MARK_TEXT, MARK_TRUE,
};
use crate::utf8::is_utf8;

verus! {

/// Why a parse failed: a malformed structure (truncation, bad UTF-8, a
/// non-string key, a malformed length), or a specific byte at a specific
/// offset that the grammar did not allow.
pub enum SpecReason {
    Invalid,
    Unexpected(u8, int),
}

/// The outcome of parsing one value at a position: the value and the
/// position just after it, or the reason the parse failed.
pub enum SpecOutcome {
    Found(SpecValue, int),
    Bad(SpecReason),
}

pub enum SpecItems {
    Found(Seq<SpecValue>, int),
    Bad(SpecReason),
}

pub enum SpecPairs {
    Found(Seq<(SpecKey, SpecValue)>, int),
    Bad(SpecReason),
}

/// The first position at or after `i` that does not hold an ASCII digit.
pub open spec fn digits_end(s: Seq<u8>, i: int) -> int
    decreases s.len() - i,
{
    if i < 0 || i >= s.len() {
        i
    } else if !spec_is_digit(s[i]) {
        i
    } else {
        digits_end(s, i + 1)
    }
}

pub proof fn lemma_digits_end(s: Seq<u8>, i: int)
    requires
        0 <= i <= s.len(),
    ensures
        i <= digits_end(s, i) <= s.len(),
        all_digits(s.subrange(i, digits_end(s, i))),
        digits_end(s, i) < s.len() ==> !spec_is_digit(s[digits_end(s, i)]),
        i < s.len() && spec_is_digit(s[i]) ==> digits_end(s, i) > i,
    decreases s.len() - i,
{
    if i < s.len() && spec_is_digit(s[i]) {
        lemma_digits_end(s, i + 1);
        let de = digits_end(s, i);
        assert(de == digits_end(s, i + 1));
        assert forall|j: int| 0 <= j < de - i implies spec_is_digit(
            #[trigger] s.subrange(i, de)[j],
        ) by {
            if j > 0 {
                assert(s.subrange(i + 1, de)[j - 1] == s.subrange(i, de)[j]);
            }
        }
    }
}

/// A decoded key: only binary and text values may stand as keys.
pub open spec fn spec_value_as_key(v: SpecValue) -> Option<SpecKey> {
    match v {
        SpecValue::Binary(b) => Option::Some(SpecKey::Binary(b)),
        SpecValue::Text(t) => Option::Some(SpecKey::Text(t)),
        _ => Option::None,
    }
}

/// Parse a number production: the position holds the number marker.
pub open spec fn spec_parse_number(s: Seq<u8>, pos: int) -> SpecOutcome {
    let p = pos + 1;
    if p >= s.len() {
        SpecOutcome::Bad(SpecReason::Invalid)
    } else {
        let neg = s[p] == MARK_MINUS;
        let ds = if neg {
            p + 1
        } else {
            p
        };
        if ds >= s.len() {
            SpecOutcome::Bad(SpecReason::Invalid)
        } else if !spec_is_digit(s[ds]) {
            SpecOutcome::Bad(SpecReason::Unexpected(s[ds], ds))
        } else {
            let de = digits_end(s, ds);
            if de >= s.len() {
                SpecOutcome::Bad(SpecReason::Invalid)
            } else if s[de] != MARK_END {
                SpecOutcome::Bad(SpecReason::Unexpected(s[de], de))
            } else {
                let m = spec_dec_value(s.subrange(ds, de));
                SpecOutcome::Found(
                    SpecValue::Number(
                        if neg {
                            -m
                        } else {
                            m
                        },
                    ),
                    de + 1,
                )
            }
        }
    }
}

/// Parse a byte-string production: the position holds the first length
/// digit. A signed length is never reached here, because a minus sign does
/// not dispatch to this production.
pub open spec fn spec_parse_binary(s: Seq<u8>, pos: int) -> SpecOutcome {
    let de = digits_end(s, pos);
    if de >= s.len() {
        SpecOutcome::Bad(SpecReason::Invalid)
    } else if s[de] != MARK_COLON {
        SpecOutcome::Bad(SpecReason::Unexpected(s[de], de))
    } else {
        let n = spec_dec_value(s.subrange(pos, de));
        if de + 1 + n > s.len() {
            SpecOutcome::Bad(SpecReason::Invalid)
        } else {
            SpecOutcome::Found(SpecValue::Binary(s.subrange(de + 1, de + 1 + n)), de + 1 + n)
        }
    }
}

/// Parse a text production: the position holds the text marker. A length
/// that does not open with a digit (a minus sign included) is a malformed
/// length; a span that is not well-formed UTF-8 is malformed too.
pub open spec fn spec_parse_text(s: Seq<u8>, pos: int) -> SpecOutcome {
    let p = pos + 1;
    if p >= s.len() {
        SpecOutcome::Bad(SpecReason::Invalid)
    } else if !spec_is_digit(s[p]) {
        SpecOutcome::Bad(SpecReason::Invalid)
    } else {
        let de = digits_end(s, p);
        if de >= s.len() {
            SpecOutcome::Bad(SpecReason::Invalid)
        } else if s[de] != MARK_COLON {
            SpecOutcome::Bad(SpecReason::Unexpected(s[de], de))
        } else {
            let n = spec_dec_value(s.subrange(p, de));
            if de + 1 + n > s.len() {
                SpecOutcome::Bad(SpecReason::Invalid)
            } else if !is_utf8(s.subrange(de + 1, de + 1 + n)) {
                SpecOutcome::Bad(SpecReason::Invalid)
            } else {
                SpecOutcome::Found(SpecValue::Text(s.subrange(de + 1, de + 1 + n)), de + 1 + n)
            }
        }
    }
}

/// Parse one value at `pos`. This is the reference semantics that both the
/// scalar and the index-accelerated decoder are proved against.
pub open spec fn spec_parse(s: Seq<u8>, pos: int) -> SpecOutcome
    decreases s.len() - pos, 0int,
    when 0 <= pos
{
    if pos >= s.len() {
        SpecOutcome::Bad(SpecReason::Invalid)
    } else {
        let b = s[pos];
        if b == MARK_NULL {
            SpecOutcome::Found(SpecValue::Null, pos + 1)
        } else if b == MARK_TRUE {
            SpecOutcome::Found(SpecValue::Boolean(true), pos + 1)
        } else if b == MARK_FALSE {
            SpecOutcome::Found(SpecValue::Boolean(false), pos + 1)
        } else if b == MARK_NUMBER {
            spec_parse_number(s, pos)
        } else if spec_is_digit(b) {
            spec_parse_binary(s, pos)
        } else if b == MARK_TEXT {
            spec_parse_text(s, pos)
        } else if b == MARK_LIST {
            match spec_parse_items(s, pos + 1) {
                SpecItems::Found(items, end) => SpecOutcome::Found(SpecValue::List(items), end),
                SpecItems::Bad(r) => SpecOutcome::Bad(r),
            }
        } else if b == MARK_DICT {
            match spec_parse_pairs(s, pos + 1, Seq::empty()) {
                SpecPairs::Found(es, end) => SpecOutcome::Found(SpecValue::Dictionary(es), end),
                SpecPairs::Bad(r) => SpecOutcome::Bad(r),
            }
        } else {
            SpecOutcome::Bad(SpecReason::Unexpected(b, pos))
        }
    }
}

/// Parse list elements up to and including the end marker.
pub open spec fn spec_parse_items(s: Seq<u8>, pos: int) -> SpecItems
    decreases s.len() - pos, 1int,
    when 0 <= pos
{
    if pos >= s.len() {
        SpecItems::Bad(SpecReason::Invalid)
    } else if s[pos] == MARK_END {
        SpecItems::Found(Seq::empty(), pos + 1)
    } else {
        match spec_parse(s, pos) {
            SpecOutcome::Found(v, next) => {
                if pos < next <= s.len() {
                    match spec_parse_items(s, next) {
                        SpecItems::Found(items, end) => SpecItems::Found(seq![v] + items, end),
                        SpecItems::Bad(r) => SpecItems::Bad(r),
                    }
                } else {
                    SpecItems::Bad(SpecReason::Invalid)
                }
            }
            SpecOutcome::Bad(r) => SpecItems::Bad(r),
        }
    }
}

/// Parse dictionary entries up to and including the end marker, keeping the
/// accumulated entries in canonical order; a repeated key takes the later
/// value (last write wins).
pub open spec fn spec_parse_pairs(
    s: Seq<u8>,
    pos: int,
    acc: Seq<(SpecKey, SpecValue)>,
) -> SpecPairs
    decreases s.len() - pos, 1int,
    when 0 <= pos
{
    if pos >= s.len() {
        SpecPairs::Bad(SpecReason::Invalid)
    } else if s[pos] == MARK_END {
        SpecPairs::Found(acc, pos + 1)
    } else {
        match spec_parse(s, pos) {
            SpecOutcome::Found(kv, kp) => match spec_value_as_key(kv) {
                Option::None => SpecPairs::Bad(SpecReason::Invalid),
                Option::Some(k) => {
                    if pos < kp <= s.len() {
                        match spec_parse(s, kp) {
                            SpecOutcome::Found(v, vp) => {
                                if kp < vp <= s.len() {
                                    spec_parse_pairs(s, vp, spec_dict_insert(acc, k, v))
                                } else {
                                    SpecPairs::Bad(SpecReason::Invalid)
                                }
                            }
                            SpecOutcome::Bad(r) => SpecPairs::Bad(r),
                        }
                    } else {
                        SpecPairs::Bad(SpecReason::Invalid)
                    }
                }
            },
            SpecOutcome::Bad(r) => SpecPairs::Bad(r),
        }
    }
}

/// A found parse always advances, and never past the end of the input, so
/// the inner bound checks of the parse functions never bite.
pub proof fn lemma_parse_advances(s: Seq<u8>, pos: int)
    requires
        0 <= pos,
    ensures
        spec_parse(s, pos) matches SpecOutcome::Found(v, n) ==> pos < n <= s.len(),
    decreases s.len() - pos, 0int,
{
    if pos < s.len() {
        let b = s[pos];
        if b == MARK_NUMBER {
            let p = pos + 1;
            if p < s.len() {
                let ds = if s[p] == MARK_MINUS {
                    p + 1
                } else {
                    p
                };
                if ds < s.len() {
                    lemma_digits_end(s, ds);
                }
            }
        } else if spec_is_digit(b) {
            lemma_digits_end(s, pos);
            let de = digits_end(s, pos);
            if de < s.len() && s[de] == MARK_COLON {
                lemma_dec_value_nonneg(s.subrange(pos, de));
            }
        } else if b == MARK_TEXT {
            let p = pos + 1;
            if p < s.len() && spec_is_digit(s[p]) {
                lemma_digits_end(s, p);
                let de = digits_end(s, p);
                if de < s.len() && s[de] == MARK_COLON {
                    lemma_dec_value_nonneg(s.subrange(p, de));
                }
            }
        } else if b == MARK_LIST {
            lemma_parse_items_advances(s, pos + 1);
        } else if b == MARK_DICT {
            lemma_parse_pairs_advances(s, pos + 1, Seq::empty());
        }
    }
}

pub proof fn lemma_parse_items_advances(s: Seq<u8>, pos: int)
    requires
        0 <= pos,
    ensures
        spec_parse_items(s, pos) matches SpecItems::Found(items, end) ==> pos < end <= s.len(),
    decreases s.len() - pos, 1int,
{
    if pos < s.len() && s[pos] != MARK_END {
        lemma_parse_advances(s, pos);
        match spec_parse(s, pos) {
            SpecOutcome::Found(v, next) => {
                if pos < next <= s.len() {
                    lemma_parse_items_advances(s, next);
                }
            }
            SpecOutcome::Bad(_) => {}
        }
    }
}

pub proof fn lemma_parse_pairs_advances(s: Seq<u8>, pos: int, acc: Seq<(SpecKey, SpecValue)>)
    requires
        0 <= pos,
    ensures
        spec_parse_pairs(s, pos, acc) matches SpecPairs::Found(es, end) ==> pos < end <= s.len(),
    decreases s.len() - pos, 1int,
{
    if pos < s.len() && s[pos] != MARK_END {
        lemma_parse_advances(s, pos);
        match spec_parse(s, pos) {
            SpecOutcome::Found(kv, kp) => {
                if pos < kp <= s.len() {
                    lemma_parse_advances(s, kp);
                    match spec_parse(s, kp) {
                        SpecOutcome::Found(v, vp) => {
                            if kp < vp <= s.len() {
                                lemma_parse_pairs_advances(
                                    s,
                                    vp,
                                    spec_dict_insert(acc, spec_value_as_key(kv)->Some_0, v),
                                );
                            }
                        }
                        SpecOutcome::Bad(_) => {}
                    }
                }
            }
            SpecOutcome::Bad(_) => {}
        }
    }
}

/// Prefix already-parsed items onto the outcome of parsing the rest.
pub open spec fn items_then(prefix: Seq<SpecValue>, rest: SpecItems) -> SpecItems {
    match rest {
        SpecItems::Found(items, end) => SpecItems::Found(prefix + items, end),
        SpecItems::Bad(r) => SpecItems::Bad(r),
    }
}

/// The canonical decimal image of an integer: a minus sign for negative
/// values, then the digits without leading zeros.
pub open spec fn spec_encode_int(i: int) -> Seq<u8> {
    if i < 0 {
        seq![MARK_MINUS] + spec_dec_digits(-i)
    } else {
        spec_dec_digits(i)
    }
}

/// The canonical encoding of a key: keys encode exactly as the binary or
/// text value they name.
pub open spec fn spec_encode_key(k: SpecKey) -> Seq<u8> {
    match k {
        SpecKey::Binary(b) => spec_dec_digits(b.len() as int) + seq![MARK_COLON] + b,
        SpecKey::Text(t) => seq![MARK_TEXT] + spec_dec_digits(t.len() as int) + seq![MARK_COLON]
            + t,
    }
}

/// The canonical encoding of a value. Dictionary entries are written in the
/// order they are held, which the data model keeps canonically sorted.
pub open spec fn spec_encode(v: SpecValue) -> Seq<u8>
    decreases v, 0int,
{
    match v {
        SpecValue::Null => seq![MARK_NULL],
        SpecValue::Boolean(b) => if b {
            seq![MARK_TRUE]
        } else {
            seq![MARK_FALSE]
        },
        SpecValue::Number(i) => seq![MARK_NUMBER] + spec_encode_int(i) + seq![MARK_END],
        SpecValue::Binary(b) => spec_encode_key(SpecKey::Binary(b)),
        SpecValue::Text(t) => spec_encode_key(SpecKey::Text(t)),
        SpecValue::List(l) => seq![MARK_LIST] + spec_encode_list(l) + seq![MARK_END],
        SpecValue::Dictionary(es) => seq![MARK_DICT] + spec_encode_pairs(es) + seq![MARK_END],
    }
}

pub open spec fn spec_encode_list(l: Seq<SpecValue>) -> Seq<u8>
    decreases l, 1int,
{
    if l.len() == 0 {
        Seq::empty()
    } else {
        spec_encode(l[0]) + spec_encode_list(l.drop_first())
    }
}

pub open spec fn spec_encode_pairs(es: Seq<(SpecKey, SpecValue)>) -> Seq<u8>
    decreases es, 1int,
{
    if es.len() == 0 {
        Seq::empty()
    } else {
        spec_encode_key(es[0].0) + spec_encode(es[0].1) + spec_encode_pairs(es.drop_first())
    }
}


/// Appending an element to a list appends its encoding.
pub proof fn lemma_encode_list_snoc(l: Seq<SpecValue>, x: SpecValue)
    ensures
        spec_encode_list(l.push(x)) == spec_encode_list(l) + spec_encode(x),
    decreases l.len(),
{
    if l.len() == 0 {
        assert(l.push(x)[0] == x);
        assert(l.push(x).drop_first() =~= Seq::<SpecValue>::empty());
        assert(spec_encode_list(l.push(x)) == spec_encode(x) + spec_encode_list(
            Seq::<SpecValue>::empty(),
        ));
        assert(spec_encode_list(Seq::<SpecValue>::empty()) == Seq::<u8>::empty());
        assert(spec_encode(x) + Seq::<u8>::empty() =~= spec_encode(x));
        assert(spec_encode_list(l) + spec_encode(x) =~= spec_encode(x));
    } else {
        assert(l.push(x)[0] == l[0]);
        assert(l.push(x).drop_first() =~= l.drop_first().push(x));
        lemma_encode_list_snoc(l.drop_first(), x);
        assert(spec_encode_list(l.push(x)) == spec_encode(l[0]) + spec_encode_list(
            l.drop_first().push(x),
        ));
        assert(spec_encode_list(l) == spec_encode(l[0]) + spec_encode_list(l.drop_first()));
        assert((spec_encode(l[0]) + (spec_encode_list(l.drop_first()) + spec_encode(x))) =~= ((
        spec_encode(l[0]) + spec_encode_list(l.drop_first())) + spec_encode(x)));
    }
}

/// Appending an entry to a dictionary appends its key and value encodings.
pub proof fn lemma_encode_pairs_snoc(es: Seq<(SpecKey, SpecValue)>, k: SpecKey, v: SpecValue)
    ensures
        spec_encode_pairs(es.push((k, v))) == spec_encode_pairs(es) + spec_encode_key(k)
            + spec_encode(v),
    decreases es.len(),
{
    if es.len() == 0 {
        assert(es.push((k, v))[0] == (k, v));
        assert(es.push((k, v)).drop_first() =~= Seq::<(SpecKey, SpecValue)>::empty());
        assert(spec_encode_pairs(es.push((k, v))) == spec_encode_key(k) + spec_encode(v)
            + spec_encode_pairs(Seq::<(SpecKey, SpecValue)>::empty()));
        assert(spec_encode_pairs(Seq::<(SpecKey, SpecValue)>::empty()) == Seq::<u8>::empty());
        assert(spec_encode_key(k) + spec_encode(v) + Seq::<u8>::empty() =~= spec_encode_key(k)
            + spec_encode(v));
        assert(spec_encode_pairs(es) + spec_encode_key(k) + spec_encode(v) =~= spec_encode_key(k)
            + spec_encode(v));
    } else {
        assert(es.push((k, v))[0] == es[0]);
        assert(es.push((k, v)).drop_first() =~= es.drop_first().push((k, v)));
        lemma_encode_pairs_snoc(es.drop_first(), k, v);
        assert(spec_encode_pairs(es.push((k, v))) == spec_encode_key(es[0].0) + spec_encode(
            es[0].1,
        ) + spec_encode_pairs(es.drop_first().push((k, v))));
        assert(spec_encode_pairs(es) == spec_encode_key(es[0].0) + spec_encode(es[0].1)
            + spec_encode_pairs(es.drop_first()));
        assert((spec_encode_key(es[0].0) + spec_encode(es[0].1) + ((spec_encode_pairs(
            es.drop_first(),
        ) + spec_encode_key(k)) + spec_encode(v))) =~= ((spec_encode_key(es[0].0) + spec_encode(
            es[0].1,
        ) + spec_encode_pairs(es.drop_first())) + spec_encode_key(k) + spec_encode(v)));
    }
}

} // verus!
