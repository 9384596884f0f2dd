use vstd::prelude::*;
use crate::digits::{all_digits, lemma_dec_value_nonneg, spec_dec_value};
use crate::utf8::is_utf8;

verus! {

broadcast use vstd::std_specs::vec::axiom_vec_index_decreases, vstd::std_specs::vec::axiom_vec_decreases_to_view;

/// Byte values of the format's structural characters.
pub const MARK_NULL: u8 = 110;
pub const MARK_TRUE: u8 = 116;
pub const MARK_FALSE: u8 = 102;
pub const MARK_NUMBER: u8 = 105;
pub const MARK_LIST: u8 = 108;
pub const MARK_DICT: u8 = 100;
pub const MARK_TEXT: u8 = 117;
pub const MARK_COLON: u8 = 58;
pub const MARK_END: u8 = 101;
pub const DIGIT_ZERO: u8 = 48;
pub const DIGIT_NINE: u8 = 57;
pub const MARK_MINUS: u8 = 45;

/// Mathematical model of a dictionary key: a byte string, or a text string
/// given by its UTF-8 bytes.
pub enum SpecKey {
    Binary(Seq<u8>),
    Text(Seq<u8>),
}

/// Mathematical model of a value: numbers are unbounded integers, text is
/// its UTF-8 byte sequence, and a dictionary is its entry sequence in
/// canonical key order.
pub enum SpecValue {
    Null,
    Boolean(bool),
    Number(int),
    Binary(Seq<u8>),
    Text(Seq<u8>),
    List(Seq<SpecValue>),
    Dictionary(Seq<(SpecKey, SpecValue)>),
}

/// Byte-wise lexicographic order; a strict prefix sorts first.
pub open spec fn spec_bytes_lt(a: Seq<u8>, b: Seq<u8>) -> bool
    decreases a.len(),
{
    if b.len() == 0 {
        false
    } else if a.len() == 0 {
        true
    } else if a[0] < b[0] {
        true
    } else if a[0] > b[0] {
        false
    } else {
        spec_bytes_lt(a.skip(1), b.skip(1))
    }
}

/// The canonical total order on keys: every binary key sorts before every
/// text key; within one class keys compare by their bytes.
pub open spec fn spec_key_lt(a: SpecKey, b: SpecKey) -> bool {
    match (a, b) {
        (SpecKey::Binary(x), SpecKey::Binary(y)) => spec_bytes_lt(x, y),
        (SpecKey::Binary(_), SpecKey::Text(_)) => true,
        (SpecKey::Text(_), SpecKey::Binary(_)) => false,
        (SpecKey::Text(x), SpecKey::Text(y)) => spec_bytes_lt(x, y),
    }
}

pub open spec fn spec_key_wf(k: SpecKey) -> bool {
    match k {
        SpecKey::Binary(_) => true,
        SpecKey::Text(t) => is_utf8(t),
    }
}

/// Entries stand in strictly increasing canonical key order, so keys are
/// unique as well.
pub open spec fn entries_sorted(es: Seq<(SpecKey, SpecValue)>) -> bool {
    forall|i: int, j: int|
        0 <= i < j < es.len() ==> spec_key_lt(#[trigger] es[i].0, #[trigger] es[j].0)
}

impl SpecValue {
    /// The data model's invariant: text is valid UTF-8 and dictionary
    /// entries are sorted by the canonical key order.
    pub open spec fn wf(self) -> bool
        decreases self,
    {
        match self {
            SpecValue::Null => true,
            SpecValue::Boolean(_) => true,
            SpecValue::Number(_) => true,
            SpecValue::Binary(_) => true,
            SpecValue::Text(t) => is_utf8(t),
            SpecValue::List(l) => forall|i: int| 0 <= i < l.len() ==> (#[trigger] l[i]).wf(),
            SpecValue::Dictionary(es) => {
                &&& entries_sorted(es)
                &&& forall|i: int|
                    0 <= i < es.len() ==> spec_key_wf(#[trigger] es[i].0) && es[i].1.wf()
            },
        }
    }
}

pub proof fn lemma_bytes_lt_trichotomy(a: Seq<u8>, b: Seq<u8>)
    ensures
        spec_bytes_lt(a, b) || spec_bytes_lt(b, a) || a =~= b,
        spec_bytes_lt(a, b) ==> !spec_bytes_lt(b, a) && a != b,
        spec_bytes_lt(b, a) ==> !spec_bytes_lt(a, b) && a != b,
    decreases a.len(),
{
    if a.len() > 0 && b.len() > 0 && a[0] == b[0] {
        lemma_bytes_lt_trichotomy(a.skip(1), b.skip(1));
        if a.skip(1) =~= b.skip(1) {
            assert(a.len() == b.len());
            assert forall|i: int| 0 <= i < a.len() implies a[i] == b[i] by {
                if i > 0 {
                    assert(a.skip(1)[i - 1] == a[i]);
                    assert(b.skip(1)[i - 1] == b[i]);
                }
            }
            assert(a =~= b);
        }
        if a =~= b {
            assert(a.skip(1) =~= b.skip(1));
        }
    } else if a =~= b {
        assert(a.len() == b.len());
    }
}

pub proof fn lemma_bytes_lt_trans(a: Seq<u8>, b: Seq<u8>, c: Seq<u8>)
    requires
        spec_bytes_lt(a, b),
        spec_bytes_lt(b, c),
    ensures
        spec_bytes_lt(a, c),
    decreases a.len(),
{
    if a.len() > 0 && b.len() > 0 && c.len() > 0 {
        if a[0] == b[0] && b[0] == c[0] {
            lemma_bytes_lt_trans(a.skip(1), b.skip(1), c.skip(1));
        }
    }
}

pub proof fn lemma_key_lt_trichotomy(a: SpecKey, b: SpecKey)
    ensures
        spec_key_lt(a, b) || spec_key_lt(b, a) || a == b,
        spec_key_lt(a, b) ==> !spec_key_lt(b, a) && a != b,
        spec_key_lt(b, a) ==> !spec_key_lt(a, b) && a != b,
{
    match (a, b) {
        (SpecKey::Binary(x), SpecKey::Binary(y)) => {
            lemma_bytes_lt_trichotomy(x, y);
            if x =~= y {
                assert(a == b);
            }
        }
        (SpecKey::Text(x), SpecKey::Text(y)) => {
            lemma_bytes_lt_trichotomy(x, y);
            if x =~= y {
                assert(a == b);
            }
        }
        _ => {}
    }
}

pub proof fn lemma_key_lt_trans(a: SpecKey, b: SpecKey, c: SpecKey)
    requires
        spec_key_lt(a, b),
        spec_key_lt(b, c),
    ensures
        spec_key_lt(a, c),
{
    match (a, b, c) {
        (SpecKey::Binary(x), SpecKey::Binary(y), SpecKey::Binary(z)) => {
            lemma_bytes_lt_trans(x, y, z);
        }
        (SpecKey::Text(x), SpecKey::Text(y), SpecKey::Text(z)) => {
            lemma_bytes_lt_trans(x, y, z);
        }
        _ => {}
    }
}

/// Insert an entry into a canonically sorted entry sequence, keeping the
/// order; an entry under the same key is replaced.
pub open spec fn spec_dict_insert(
    es: Seq<(SpecKey, SpecValue)>,
    k: SpecKey,
    v: SpecValue,
) -> Seq<(SpecKey, SpecValue)>
    decreases es.len(),
{
    if es.len() == 0 {
        seq![(k, v)]
    } else if spec_key_lt(k, es[0].0) {
        seq![(k, v)] + es
    } else if k == es[0].0 {
        seq![(k, v)] + es.skip(1)
    } else {
        seq![es[0]] + spec_dict_insert(es.skip(1), k, v)
    }
}

/// An arbitrary-precision signed integer held as its canonical decimal
/// digits: no leading zero, and zero itself is never negative.
#[derive(Debug, PartialEq, Eq)]
pub struct BigInt {
    negative: bool,
    digits: Vec<u8>,
}

impl BigInt {
    /// The canonical shape of the stored digits, kept by construction.
    #[verifier::type_invariant]
    spec fn inv(self) -> bool {
        &&& self.digits@.len() > 0
        &&& all_digits(self.digits@)
        &&& self.digits@.len() > 1 ==> self.digits@[0] != DIGIT_ZERO
        &&& self.negative ==> self.digits@[0] != DIGIT_ZERO
    }

    /// The integer denoted by a run of ASCII digits and a sign; leading
    /// zeros are dropped, and a zero magnitude discards the sign.
    pub fn from_decimal(digits: Vec<u8>, negative: bool) -> (r: BigInt)
        requires
            digits@.len() > 0,
            all_digits(digits@),
        ensures
            r@ == if negative {
                -spec_dec_value(digits@)
            } else {
                spec_dec_value(digits@)
            },
    {
        let len = digits.len();
        let mut i: usize = 0;
        while i + 1 < len && digits[i] == DIGIT_ZERO
            invariant
                0 <= i < len,
                len == digits@.len(),
                forall|j: int| 0 <= j < i ==> digits@[j] == DIGIT_ZERO,
            decreases len - i,
        {
            i = i + 1;
        }
        let canon = vstd::slice::slice_to_vec(vstd::slice::slice_subrange(
            digits.as_slice(),
            i,
            len,
        ));
        let zero = canon.len() == 1 && digits[i] == DIGIT_ZERO;
        let neg = negative && !zero;
        proof {
            crate::digits::lemma_dec_value_leading_zeros(digits@, i as int);
            assert(canon@ =~= digits@.skip(i as int));
            assert(all_digits(canon@)) by {
                assert(forall|j: int| 0 <= j < canon@.len() ==> canon@[j] == digits@[j + i]);
            }
            if i + 1 < len {
                assert(canon@[0] == digits@[i as int]);
            }
            if zero {
                assert(canon@ =~= seq![DIGIT_ZERO]);
                assert(spec_dec_value(canon@) == 0) by {
                    assert(canon@.drop_last() =~= Seq::<u8>::empty());
                    assert(canon@.last() == DIGIT_ZERO);
                    assert(spec_dec_value(Seq::<u8>::empty()) == 0);
                }
            }
        }
        BigInt { negative: neg, digits: canon }
    }

    /// The integer a 64-bit unsigned value denotes.
    pub fn from_u64(n: u64) -> (r: BigInt)
        ensures
            r@ == n as int,
    {
        let mut digits: Vec<u8> = Vec::new();
        push_u64_decimal(&mut digits, n);
        proof {
            crate::digits::lemma_dec_digits_value(n as int);
        }
        BigInt { negative: false, digits }
    }

    /// The integer a 64-bit signed value denotes.
    pub fn from_i64(n: i64) -> (r: BigInt)
        ensures
            r@ == n as int,
    {
        if n >= 0 {
            BigInt::from_u64(n as u64)
        } else {
            let magnitude: u64 = if n == i64::MIN {
                9223372036854775808
            } else {
                (-n) as u64
            };
            let mut digits: Vec<u8> = Vec::new();
            push_u64_decimal(&mut digits, magnitude);
            proof {
                crate::digits::lemma_dec_digits_value(magnitude as int);
            }
            BigInt { negative: true, digits }
        }
    }

    /// The 64-bit unsigned value of this integer, where it has one.
    pub fn to_u64(&self) -> (r: Option<u64>)
        ensures
            (r is Some) == (0 <= self@ <= u64::MAX),
            r matches Some(n) ==> n as int == self@,
    {
        proof {
            use_type_invariant(&*self);
        }
        if self.negative {
            proof {
                crate::digits::lemma_dec_value_positive(self.digits@);
            }
            return None;
        }
        digits_to_u64(&self.digits)
    }

    /// The 64-bit signed value of this integer, where it has one.
    pub fn to_i64(&self) -> (r: Option<i64>)
        ensures
            (r is Some) == (i64::MIN <= self@ <= i64::MAX),
            r matches Some(n) ==> n as int == self@,
    {
        proof {
            use_type_invariant(&*self);
        }
        let magnitude = match digits_to_u64(&self.digits) {
            Some(m) => m,
            None => {
                proof {
                    crate::digits::lemma_dec_value_nonneg(self.digits@);
                }
                return None;
            }
        };
        if self.negative {
            let min_abs: u64 = 9223372036854775808;
            if magnitude > min_abs {
                return None;
            }
            if magnitude == min_abs {
                return Some(i64::MIN);
            }
            Some(-(magnitude as i64))
        } else {
            if magnitude > 9223372036854775807 {
                return None;
            }
            Some(magnitude as i64)
        }
    }

    /// The canonical decimal image of this integer: a minus sign for a
    /// negative value, then the digits without leading zeros.
    pub fn decimal_bytes(&self) -> (r: Vec<u8>)
        ensures
            r@ == crate::grammar::spec_encode_int(self@),
    {
        proof {
            use_type_invariant(&*self);
        }
        let mut buf: Vec<u8> = Vec::new();
        if self.negative {
            buf.push(MARK_MINUS);
        }
        buf.extend_from_slice(self.digits.as_slice());
        proof {
            crate::digits::lemma_dec_digits_canon(self.digits@);
            if self.negative {
                crate::digits::lemma_dec_value_positive(self.digits@);
                assert(buf@ =~= seq![MARK_MINUS] + crate::digits::spec_dec_digits(-self@));
            } else {
                crate::digits::lemma_dec_value_nonneg(self.digits@);
                assert(buf@ =~= crate::digits::spec_dec_digits(self@));
            }
        }
        buf
    }
}

/// The 64-bit value a digit run denotes, where it fits.
fn digits_to_u64(digits: &Vec<u8>) -> (r: Option<u64>)
    requires
        all_digits(digits@),
    ensures
        r matches Some(n) ==> n as int == spec_dec_value(digits@),
        r is None ==> spec_dec_value(digits@) > u64::MAX,
{
    let ghost d = digits@;
    let mut result: u64 = 0;
    let mut i: usize = 0;
    let len = digits.len();
    while i < len
        invariant
            0 <= i <= len,
            len == d.len(),
            d == digits@,
            all_digits(d),
            result as int == spec_dec_value(d.take(i as int)),
        decreases len - i,
    {
        let b = digits[i];
        let digit = (b - DIGIT_ZERO) as u64;
        proof {
            assert(d.take(i as int + 1).drop_last() =~= d.take(i as int));
            assert(d.take(i as int + 1).last() == d[i as int]);
        }
        let shifted = match result.checked_mul(10) {
            Some(x) => x,
            None => {
                proof {
                    crate::digits::lemma_dec_prefix_bound(d, i as int);
                }
                return None;
            }
        };
        let sum = match shifted.checked_add(digit) {
            Some(x) => x,
            None => {
                proof {
                    crate::digits::lemma_dec_prefix_bound(d, i as int);
                }
                return None;
            }
        };
        result = sum;
        i = i + 1;
    }
    proof {
        assert(d.take(len as int) =~= d);
    }
    Some(result)
}

/// Append the canonical decimal digits of a 64-bit value.
fn push_u64_decimal(buf: &mut Vec<u8>, n: u64)
    ensures
        final(buf)@ == old(buf)@ + crate::digits::spec_dec_digits(n as int),
    decreases n,
{
    if n < 10 {
        buf.push(DIGIT_ZERO + (n as u8));
        proof {
            assert(buf@ =~= old(buf)@ + crate::digits::spec_dec_digits(n as int));
        }
    } else {
        push_u64_decimal(buf, n / 10);
        buf.push(DIGIT_ZERO + ((n % 10) as u8));
        proof {
            assert(buf@ =~= old(buf)@ + crate::digits::spec_dec_digits(n as int));
        }
    }
}

impl View for BigInt {
    type V = int;

    closed spec fn view(&self) -> int {
        if self.negative {
            -spec_dec_value(self.digits@)
        } else {
            spec_dec_value(self.digits@)
        }
    }
}

/// A dictionary key.
#[derive(Debug, Clone, PartialEq, Eq)]
pub enum BencodexKey {
    Binary(Vec<u8>),
    Text(Vec<u8>),
}

/// A decoded or to-be-encoded value. `Text` holds the UTF-8 bytes of the
/// string; `Dictionary` holds its entries sorted by the canonical key order.
#[derive(Debug, PartialEq)]
pub enum BencodexValue {
    Null,
    Boolean(bool),
    Number(BigInt),
    Binary(Vec<u8>),
    Text(Vec<u8>),
    List(BencodexList),
    Dictionary(BencodexDictionary),
}

/// The type alias of `Vec<BencodexValue>` to reduce code size.
pub type BencodexList = Vec<BencodexValue>;

/// The type alias of the dictionary entry vector to reduce code size.
pub type BencodexDictionary = Vec<(BencodexKey, BencodexValue)>;

/// The constant of `BencodexValue::Null`.
pub const BENCODEX_NULL: BencodexValue = BencodexValue::Null;

pub open spec fn view_key(k: BencodexKey) -> SpecKey {
    match k {
        BencodexKey::Binary(b) => SpecKey::Binary(b@),
        BencodexKey::Text(t) => SpecKey::Text(t@),
    }
}

pub open spec fn view_value(v: BencodexValue) -> SpecValue
    decreases v, 0int,
{
    match v {
        BencodexValue::Null => SpecValue::Null,
        BencodexValue::Boolean(b) => SpecValue::Boolean(b),
        BencodexValue::Number(n) => SpecValue::Number(n@),
        BencodexValue::Binary(b) => SpecValue::Binary(b@),
        BencodexValue::Text(t) => SpecValue::Text(t@),
        BencodexValue::List(l) => SpecValue::List(view_list(l@)),
        BencodexValue::Dictionary(d) => SpecValue::Dictionary(view_pairs(d@)),
    }
}

pub open spec fn view_list(l: Seq<BencodexValue>) -> Seq<SpecValue>
    decreases l, 1int,
{
    if l.len() == 0 {
        Seq::empty()
    } else {
        seq![view_value(l[0])] + view_list(l.skip(1))
    }
}

pub open spec fn view_pairs(ps: Seq<(BencodexKey, BencodexValue)>) -> Seq<(SpecKey, SpecValue)>
    decreases ps, 1int,
{
    if ps.len() == 0 {
        Seq::empty()
    } else {
        seq![(view_key(ps[0].0), view_value(ps[0].1))] + view_pairs(ps.skip(1))
    }
}

impl View for BencodexKey {
    type V = SpecKey;

    open spec fn view(&self) -> SpecKey {
        view_key(*self)
    }
}

impl View for BencodexValue {
    type V = SpecValue;

    open spec fn view(&self) -> SpecValue {
        view_value(*self)
    }
}

pub proof fn lemma_view_list_index(l: Seq<BencodexValue>)
    ensures
        view_list(l).len() == l.len(),
        forall|i: int| 0 <= i < l.len() ==> #[trigger] view_list(l)[i] == view_value(l[i]),
    decreases l.len(),
{
    if l.len() > 0 {
        lemma_view_list_index(l.skip(1));
        assert forall|i: int| 0 <= i < l.len() implies #[trigger] view_list(l)[i] == view_value(l[i]) by {
            if i > 0 {
                assert(l.skip(1)[i - 1] == l[i]);
            }
        }
    }
}

pub proof fn lemma_view_pairs_index(ps: Seq<(BencodexKey, BencodexValue)>)
    ensures
        view_pairs(ps).len() == ps.len(),
        forall|i: int|
            0 <= i < ps.len() ==> #[trigger] view_pairs(ps)[i] == (view_key(ps[i].0),
            view_value(ps[i].1)),
    decreases ps.len(),
{
    if ps.len() > 0 {
        lemma_view_pairs_index(ps.skip(1));
        assert forall|i: int|
            0 <= i < ps.len() implies #[trigger] view_pairs(ps)[i] == (view_key(ps[i].0),
        view_value(ps[i].1)) by {
            if i > 0 {
                assert(ps.skip(1)[i - 1] == ps[i]);
            }
        }
    }
}

pub proof fn lemma_view_list_push(l: Seq<BencodexValue>, x: BencodexValue)
    ensures
        view_list(l.push(x)) == view_list(l) + seq![view_value(x)],
{
    lemma_view_list_index(l);
    lemma_view_list_index(l.push(x));
    assert(view_list(l.push(x)) =~= view_list(l) + seq![view_value(x)]);
}

impl BencodexKey {
    /// Detach the key from any shared buffer; keys own their bytes, so this
    /// returns the key unchanged.
    pub fn into_owned(self) -> (r: BencodexKey)
        ensures
            r@ == self@,
    {
        self
    }
}

impl BencodexValue {
    /// Detach the value from any shared buffer; values own their payloads,
    /// so this returns the value unchanged.
    pub fn into_owned(self) -> (r: BencodexValue)
        ensures
            r@ == self@,
    {
        self
    }
}

} // verus!
