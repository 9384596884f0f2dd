use vstd::prelude::*;
use crate::decode::{spec_decoded, DecodeError};
use crate::dict::{lemma_pairs_map_props, pairs_map, pairs_wf};
use crate::digits::{
    all_digits, lemma_dec_digits_value, spec_dec_digits, spec_dec_value, spec_is_digit,
};
use crate::grammar::{
    digits_end, spec_encode, spec_encode_int, spec_encode_key, spec_encode_list,
    spec_encode_pairs, spec_parse, spec_parse_items, spec_parse_pairs, spec_value_as_key,
    SpecItems, SpecOutcome, SpecPairs,
};
use crate::types::{
    entries_sorted, lemma_key_lt_trichotomy, spec_dict_insert, spec_key_lt, spec_key_wf,
    view_value, BencodexValue, SpecKey, SpecValue, MARK_COLON, MARK_DICT, MARK_END,
    MARK_FALSE, MARK_LIST, MARK_MINUS, MARK_NULL, MARK_NUMBER, MARK_TEXT, MARK_TRUE,
};
use crate::utf8::is_utf8;

verus! {

/// The bytes `bytes` stand in `s` at position `pos`.
pub open spec fn has_bytes_at(s: Seq<u8>, pos: int, bytes: Seq<u8>) -> bool {
    &&& 0 <= pos
    &&& pos + bytes.len() <= s.len()
    &&& s.subrange(pos, pos + bytes.len() as int) == bytes
}

proof fn lemma_bytes_at_index(s: Seq<u8>, pos: int, bytes: Seq<u8>)
    requires
        has_bytes_at(s, pos, bytes),
    ensures
        forall|q: int| pos <= q < pos + bytes.len() ==> #[trigger] s[q] == bytes[q - pos],
{
    assert forall|q: int| pos <= q < pos + bytes.len() implies #[trigger] s[q] == bytes[q - pos]
        by {
        assert(s.subrange(pos, pos + bytes.len() as int)[q - pos] == s[q]);
    }
}

proof fn lemma_digits_at(s: Seq<u8>, pos: int, dd: Seq<u8>)
    requires
        has_bytes_at(s, pos, dd),
        all_digits(dd),
    ensures
        forall|q: int| pos <= q < pos + dd.len() ==> spec_is_digit(#[trigger] s[q]),
{
    lemma_bytes_at_index(s, pos, dd);
}

proof fn lemma_bytes_at_split(s: Seq<u8>, pos: int, a: Seq<u8>, b: Seq<u8>)
    requires
        has_bytes_at(s, pos, a + b),
    ensures
        has_bytes_at(s, pos, a),
        has_bytes_at(s, pos + a.len(), b),
{
    let ab = a + b;
    lemma_bytes_at_index(s, pos, ab);
    assert(s.subrange(pos, pos + a.len() as int) =~= a);
    assert(s.subrange(pos + a.len(), pos + ab.len() as int) =~= b);
}

proof fn lemma_digits_end_exact(s: Seq<u8>, i: int, j: int)
    requires
        0 <= i <= j <= s.len(),
        forall|q: int| i <= q < j ==> spec_is_digit(#[trigger] s[q]),
        j < s.len() ==> !spec_is_digit(s[j]),
    ensures
        digits_end(s, i) == j,
    decreases j - i,
{
    if i < j {
        lemma_digits_end_exact(s, i + 1, j);
    }
}

/// A canonical encoding is never empty and never opens with the end marker.
proof fn lemma_encode_first_byte(v: SpecValue)
    ensures
        spec_encode(v).len() >= 1,
        spec_encode(v)[0] != MARK_END,
{
    match v {
        SpecValue::Binary(b) => {
            lemma_dec_digits_value(b.len() as int);
            let dd = spec_dec_digits(b.len() as int);
            assert(spec_encode(v)[0] == dd[0]);
            assert(spec_is_digit(dd[0]));
        }
        SpecValue::Number(_) => {
            assert(spec_encode(v)[0] == MARK_NUMBER);
        }
        _ => {}
    }
}

/// A canonical key encoding never opens with the end marker either.
proof fn lemma_encode_key_first_byte(k: SpecKey)
    ensures
        spec_encode_key(k).len() >= 1,
        spec_encode_key(k)[0] != MARK_END,
{
    match k {
        SpecKey::Binary(b) => {
            lemma_dec_digits_value(b.len() as int);
            let dd = spec_dec_digits(b.len() as int);
            assert(spec_encode_key(k)[0] == dd[0]);
            assert(spec_is_digit(dd[0]));
        }
        SpecKey::Text(t) => {
            assert(spec_encode_key(k)[0] == MARK_TEXT);
        }
    }
}

/// Parsing a canonically encoded byte string finds the byte string.
proof fn lemma_parse_encoded_binary(b: Seq<u8>, s: Seq<u8>, pos: int)
    requires
        has_bytes_at(s, pos, spec_encode_key(SpecKey::Binary(b))),
    ensures
        spec_parse(s, pos) == SpecOutcome::Found(
            SpecValue::Binary(b),
            pos + spec_encode_key(SpecKey::Binary(b)).len(),
        ),
{
    let dd = spec_dec_digits(b.len() as int);
    let enc = spec_encode_key(SpecKey::Binary(b));
    lemma_dec_digits_value(b.len() as int);
    lemma_bytes_at_split(s, pos, dd + seq![MARK_COLON], b);
    lemma_bytes_at_split(s, pos, dd, seq![MARK_COLON]);
    lemma_bytes_at_index(s, pos, dd);
    lemma_bytes_at_index(s, pos + dd.len(), seq![MARK_COLON]);
    lemma_bytes_at_index(s, pos + dd.len() + 1, b);
    lemma_digits_at(s, pos, dd);
    assert(s[pos] == dd[0]);
    assert(spec_is_digit(s[pos]));
    assert(s[pos + dd.len()] == MARK_COLON);
    lemma_digits_end_exact(s, pos, pos + dd.len());
    let de = pos + dd.len();
    assert(s.subrange(pos, de) == dd);
    assert(spec_dec_value(s.subrange(pos, de)) == b.len());
    assert(de + 1 + b.len() == pos + enc.len());
    assert(s.subrange(de + 1, de + 1 + b.len() as int) =~= b) by {
        lemma_bytes_at_index(s, de + 1, b);
    }
}

/// Parsing a canonically encoded text string finds the text string.
proof fn lemma_parse_encoded_text(t: Seq<u8>, s: Seq<u8>, pos: int)
    requires
        is_utf8(t),
        has_bytes_at(s, pos, spec_encode_key(SpecKey::Text(t))),
    ensures
        spec_parse(s, pos) == SpecOutcome::Found(
            SpecValue::Text(t),
            pos + spec_encode_key(SpecKey::Text(t)).len(),
        ),
{
    let dd = spec_dec_digits(t.len() as int);
    let enc = spec_encode_key(SpecKey::Text(t));
    lemma_dec_digits_value(t.len() as int);
    lemma_bytes_at_split(s, pos, seq![MARK_TEXT] + dd + seq![MARK_COLON], t);
    lemma_bytes_at_split(s, pos, seq![MARK_TEXT] + dd, seq![MARK_COLON]);
    lemma_bytes_at_split(s, pos, seq![MARK_TEXT], dd);
    lemma_bytes_at_index(s, pos, seq![MARK_TEXT]);
    lemma_bytes_at_index(s, pos + 1, dd);
    lemma_bytes_at_index(s, pos + 1 + dd.len(), seq![MARK_COLON]);
    lemma_digits_at(s, pos + 1, dd);
    assert(s[pos] == MARK_TEXT);
    assert(s[pos + 1] == dd[0]);
    assert(spec_is_digit(s[pos + 1]));
    assert(s[pos + 1 + dd.len()] == MARK_COLON);
    lemma_digits_end_exact(s, pos + 1, pos + 1 + dd.len());
    let de = pos + 1 + dd.len();
    assert(s.subrange(pos + 1, de) =~= dd) by {
        lemma_bytes_at_index(s, pos + 1, dd);
    }
    assert(spec_dec_value(s.subrange(pos + 1, de)) == t.len());
    assert(de + 1 + t.len() == pos + enc.len());
    assert(s.subrange(de + 1, de + 1 + t.len() as int) =~= t) by {
        lemma_bytes_at_index(s, de + 1, t);
    }
}

/// Inserting a key greater than every present key appends the entry.
proof fn lemma_dict_insert_append(acc: Seq<(SpecKey, SpecValue)>, k: SpecKey, v: SpecValue)
    requires
        forall|j: int| 0 <= j < acc.len() ==> spec_key_lt((#[trigger] acc[j]).0, k),
    ensures
        spec_dict_insert(acc, k, v) == acc.push((k, v)),
    decreases acc.len(),
{
    if acc.len() == 0 {
        assert(spec_dict_insert(acc, k, v) =~= acc.push((k, v)));
    } else {
        lemma_key_lt_trichotomy(k, acc[0].0);
        assert(forall|j: int|
            0 <= j < acc.skip(1).len() ==> (#[trigger] acc.skip(1)[j]) == acc[j + 1]);
        lemma_dict_insert_append(acc.skip(1), k, v);
        assert(spec_dict_insert(acc, k, v) == seq![acc[0]] + acc.skip(1).push((k, v)));
        assert(seq![acc[0]] + acc.skip(1).push((k, v)) =~= acc.push((k, v)));
    }
}

/// Parsing a canonical encoding finds exactly the encoded value.
proof fn lemma_parse_encoded(v: SpecValue, s: Seq<u8>, pos: int)
    requires
        v.wf(),
        has_bytes_at(s, pos, spec_encode(v)),
    ensures
        spec_parse(s, pos) == SpecOutcome::Found(v, pos + spec_encode(v).len()),
    decreases v, 0int,
{
    let enc = spec_encode(v);
    lemma_bytes_at_index(s, pos, enc);
    match v {
        SpecValue::Null => {
            assert(s[pos] == MARK_NULL);
        }
        SpecValue::Boolean(b) => {
            assert(s[pos] == if b {
                MARK_TRUE
            } else {
                MARK_FALSE
            });
        }
        SpecValue::Number(n) => {
            let ei = spec_encode_int(n);
            assert(s[pos] == MARK_NUMBER);
            lemma_bytes_at_split(s, pos, seq![MARK_NUMBER] + ei, seq![MARK_END]);
            lemma_bytes_at_split(s, pos, seq![MARK_NUMBER], ei);
            lemma_bytes_at_index(s, pos + 1, ei);
            lemma_bytes_at_index(s, pos + 1 + ei.len(), seq![MARK_END]);
            assert(s[pos + 1 + ei.len()] == MARK_END);
            if n >= 0 {
                let dd = spec_dec_digits(n);
                lemma_dec_digits_value(n);
                assert(ei == dd);
                lemma_digits_at(s, pos + 1, dd);
                assert(s[pos + 1] == dd[0]);
                assert(spec_is_digit(s[pos + 1]));
                assert(s[pos + 1] != MARK_MINUS);
                lemma_digits_end_exact(s, pos + 1, pos + 1 + dd.len());
                assert(s.subrange(pos + 1, pos + 1 + dd.len() as int) =~= dd) by {
                    lemma_bytes_at_index(s, pos + 1, dd);
                }
                assert(spec_dec_value(s.subrange(pos + 1, pos + 1 + dd.len() as int)) == n);
            } else {
                let dd = spec_dec_digits(-n);
                lemma_dec_digits_value(-n);
                assert(ei == seq![MARK_MINUS] + dd);
                lemma_bytes_at_split(s, pos + 1, seq![MARK_MINUS], dd);
                lemma_bytes_at_index(s, pos + 1, seq![MARK_MINUS]);
                lemma_bytes_at_index(s, pos + 2, dd);
                assert(s[pos + 1] == MARK_MINUS);
                lemma_digits_at(s, pos + 2, dd);
                assert(s[pos + 2] == dd[0]);
                assert(spec_is_digit(s[pos + 2]));
                lemma_digits_end_exact(s, pos + 2, pos + 2 + dd.len());
                assert(s.subrange(pos + 2, pos + 2 + dd.len() as int) =~= dd) by {
                    lemma_bytes_at_index(s, pos + 2, dd);
                }
                assert(spec_dec_value(s.subrange(pos + 2, pos + 2 + dd.len() as int)) == -n);
                assert(pos + 2 + dd.len() + 1 == pos + enc.len());
            }
        }
        SpecValue::Binary(b) => {
            lemma_parse_encoded_binary(b, s, pos);
        }
        SpecValue::Text(t) => {
            lemma_parse_encoded_text(t, s, pos);
        }
        SpecValue::List(l) => {
            let el = spec_encode_list(l);
            assert(s[pos] == MARK_LIST);
            lemma_bytes_at_split(s, pos, seq![MARK_LIST] + el, seq![MARK_END]);
            lemma_bytes_at_split(s, pos, seq![MARK_LIST], el);
            lemma_bytes_at_index(s, pos + 1 + el.len(), seq![MARK_END]);
            assert(s[pos + 1 + el.len()] == MARK_END);
            lemma_parse_encoded_items(l, s, pos + 1);
            assert(spec_parse_items(s, pos + 1) == SpecItems::Found(l, pos + enc.len()));
        }
        SpecValue::Dictionary(es) => {
            let ep = spec_encode_pairs(es);
            assert(s[pos] == MARK_DICT);
            lemma_bytes_at_split(s, pos, seq![MARK_DICT] + ep, seq![MARK_END]);
            lemma_bytes_at_split(s, pos, seq![MARK_DICT], ep);
            lemma_bytes_at_index(s, pos + 1 + ep.len(), seq![MARK_END]);
            assert(s[pos + 1 + ep.len()] == MARK_END);
            assert(entries_sorted(Seq::<(SpecKey, SpecValue)>::empty() + es)) by {
                assert(Seq::<(SpecKey, SpecValue)>::empty() + es =~= es);
            }
            lemma_parse_encoded_pairs(es, s, pos + 1, Seq::empty());
            assert(Seq::<(SpecKey, SpecValue)>::empty() + es =~= es);
            assert(spec_parse_pairs(s, pos + 1, Seq::empty()) == SpecPairs::Found(
                es,
                pos + enc.len(),
            ));
        }
    }
}

/// Parsing canonically encoded list elements followed by the end marker
/// finds exactly the encoded elements.
proof fn lemma_parse_encoded_items(l: Seq<SpecValue>, s: Seq<u8>, pos: int)
    requires
        forall|i: int| 0 <= i < l.len() ==> (#[trigger] l[i]).wf(),
        has_bytes_at(s, pos, spec_encode_list(l)),
        pos + spec_encode_list(l).len() < s.len(),
        s[pos + spec_encode_list(l).len()] == MARK_END,
    ensures
        spec_parse_items(s, pos) == SpecItems::Found(l, pos + spec_encode_list(l).len() + 1),
    decreases l, 1int,
{
    let el = spec_encode_list(l);
    if l.len() == 0 {
        assert(el == Seq::<u8>::empty());
        assert(s[pos] == MARK_END);
        assert(spec_parse_items(s, pos) == SpecItems::Found(Seq::<SpecValue>::empty(), pos + 1));
        assert(Seq::<SpecValue>::empty() =~= l);
    } else {
        let e0 = spec_encode(l[0]);
        let rest = spec_encode_list(l.drop_first());
        assert(el == e0 + rest);
        lemma_bytes_at_split(s, pos, e0, rest);
        lemma_encode_first_byte(l[0]);
        lemma_bytes_at_index(s, pos, e0);
        assert(s[pos] == e0[0]);
        assert(s[pos] != MARK_END);
        lemma_parse_encoded(l[0], s, pos);
        let next = pos + e0.len();
        assert(forall|i: int|
            0 <= i < l.drop_first().len() ==> (#[trigger] l.drop_first()[i]) == l[i + 1]);
        lemma_parse_encoded_items(l.drop_first(), s, next);
        assert(spec_parse_items(s, next) == SpecItems::Found(
            l.drop_first(),
            next + rest.len() + 1,
        ));
        assert(seq![l[0]] + l.drop_first() =~= l);
        assert(spec_parse_items(s, pos) == SpecItems::Found(l, pos + el.len() + 1));
    }
}

/// Parsing canonically encoded dictionary entries, sorted above every
/// accumulated key, appends exactly the encoded entries.
proof fn lemma_parse_encoded_pairs(
    es: Seq<(SpecKey, SpecValue)>,
    s: Seq<u8>,
    pos: int,
    acc: Seq<(SpecKey, SpecValue)>,
)
    requires
        pairs_wf(es),
        entries_sorted(acc + es),
        has_bytes_at(s, pos, spec_encode_pairs(es)),
        pos + spec_encode_pairs(es).len() < s.len(),
        s[pos + spec_encode_pairs(es).len()] == MARK_END,
    ensures
        spec_parse_pairs(s, pos, acc) == SpecPairs::Found(
            acc + es,
            pos + spec_encode_pairs(es).len() + 1,
        ),
    decreases es, 1int,
{
    let ep = spec_encode_pairs(es);
    if es.len() == 0 {
        assert(ep == Seq::<u8>::empty());
        assert(s[pos] == MARK_END);
        assert(acc + es =~= acc);
    } else {
        let k = es[0].0;
        let v = es[0].1;
        let ke = spec_encode_key(k);
        let ve = spec_encode(v);
        let rest = spec_encode_pairs(es.drop_first());
        assert(ep == ke + ve + rest);
        assert(ke + ve + rest =~= ke + (ve + rest));
        lemma_bytes_at_split(s, pos, ke, ve + rest);
        lemma_bytes_at_split(s, pos + ke.len(), ve, rest);
        lemma_encode_key_first_byte(k);
        lemma_bytes_at_index(s, pos, ke);
        assert(s[pos] == ke[0]);
        assert(s[pos] != MARK_END);
        assert(spec_key_wf(k));
        match k {
            SpecKey::Binary(b) => {
                lemma_parse_encoded_binary(b, s, pos);
                assert(spec_value_as_key(SpecValue::Binary(b)) == Option::Some(k));
            }
            SpecKey::Text(t) => {
                lemma_parse_encoded_text(t, s, pos);
                assert(spec_value_as_key(SpecValue::Text(t)) == Option::Some(k));
            }
        }
        let kp = pos + ke.len();
        lemma_parse_encoded(v, s, kp);
        let vp = kp + ve.len();
        assert(forall|j: int| 0 <= j < acc.len() ==> (#[trigger] (acc + es)[j]) == acc[j]);
        assert((acc + es)[acc.len() as int] == es[0]);
        assert forall|j: int| 0 <= j < acc.len() implies spec_key_lt((#[trigger] acc[j]).0, k) by {
            assert((acc + es)[j] == acc[j]);
        }
        lemma_dict_insert_append(acc, k, v);
        let acc2 = acc.push((k, v));
        assert(acc2 + es.drop_first() =~= acc + es);
        assert(forall|i: int|
            0 <= i < es.drop_first().len() ==> (#[trigger] es.drop_first()[i]) == es[i + 1]);
        assert(pairs_wf(es.drop_first()));
        lemma_parse_encoded_pairs(es.drop_first(), s, vp, acc2);
        assert(spec_parse_pairs(s, vp, acc2) == SpecPairs::Found(
            acc2 + es.drop_first(),
            vp + rest.len() + 1,
        ));
        assert(spec_parse_pairs(s, pos, acc) == SpecPairs::Found(
            acc + es,
            pos + ep.len() + 1,
        ));
    }
}

/// Round trip: parsing the canonical encoding of any well-formed value
/// yields that value back, having consumed the whole encoding. Together
/// with the decoders' and the encoder's contracts this says that decoding
/// an encoded value returns the value.
pub proof fn lemma_round_trip(v: SpecValue)
    requires
        v.wf(),
    ensures
        spec_parse(spec_encode(v), 0) == SpecOutcome::Found(v, spec_encode(v).len() as int),
{
    let s = spec_encode(v);
    assert(s.subrange(0, s.len() as int) =~= s);
    lemma_parse_encoded(v, s, 0);
}

/// Round trip at the decoder's boundary: any result that meets the
/// decoders' contract on the canonical encoding of a well-formed value is a
/// success holding that value.
pub proof fn lemma_decode_of_encode(v: SpecValue, r: Result<BencodexValue, DecodeError>)
    requires
        v.wf(),
        spec_decoded(spec_encode(v), r),
    ensures
        r is Ok,
        r matches Result::Ok(w) ==> view_value(w) == v,
{
    lemma_round_trip(v);
}


/// Canonical order: two sorted entry sequences that denote the same mapping
/// are the same sequence, so the same semantic dictionary encodes to
/// byte-identical output however it was built.
pub proof fn lemma_canonical_order(d1: Seq<(SpecKey, SpecValue)>, d2: Seq<(SpecKey, SpecValue)>)
    requires
        entries_sorted(d1),
        entries_sorted(d2),
        pairs_map(d1) == pairs_map(d2),
    ensures
        d1 == d2,
        spec_encode(SpecValue::Dictionary(d1)) == spec_encode(SpecValue::Dictionary(d2)),
    decreases d1.len(),
{
    lemma_pairs_map_props(d1);
    lemma_pairs_map_props(d2);
    if d1.len() == 0 {
        if d2.len() > 0 {
            assert(pairs_map(d2).contains_pair(d2[0].0, d2[0].1));
            assert(pairs_map(d1).dom() =~= Set::<SpecKey>::empty()) by {
                if exists|k: SpecKey| pairs_map(d1).dom().contains(k) {
                    let k = choose|k: SpecKey| pairs_map(d1).dom().contains(k);
                    let w = choose|i: int| 0 <= i < d1.len() && (#[trigger] d1[i]).0 == k;
                    assert(false);
                }
            }
            assert(false);
        }
        assert(d1 =~= d2);
    } else {
        assert(pairs_map(d1).contains_pair(d1[0].0, d1[0].1));
        if d2.len() == 0 {
            assert(pairs_map(d2).dom() =~= Set::<SpecKey>::empty()) by {
                if exists|k: SpecKey| pairs_map(d2).dom().contains(k) {
                    let k = choose|k: SpecKey| pairs_map(d2).dom().contains(k);
                    let w = choose|i: int| 0 <= i < d2.len() && (#[trigger] d2[i]).0 == k;
                    assert(false);
                }
            }
            assert(false);
        }
        // the least key of each sequence is its head, and the two mappings
        // share their keys, so the heads carry the same key
        let k1 = d1[0].0;
        let k2 = d2[0].0;
        assert(pairs_map(d2).dom().contains(k1));
        let w1 = choose|i: int| 0 <= i < d2.len() && (#[trigger] d2[i]).0 == k1;
        assert(pairs_map(d1).dom().contains(k2));
        let w2 = choose|i: int| 0 <= i < d1.len() && (#[trigger] d1[i]).0 == k2;
        lemma_key_lt_trichotomy(k1, k2);
        if spec_key_lt(k1, k2) {
            assert(d2[w1].0 == k1);
            if w1 > 0 {
                assert(spec_key_lt(d2[0].0, d2[w1].0));
                crate::types::lemma_key_lt_trans(k2, k1, k2);
                assert(false);
            }
            assert(false);
        }
        if spec_key_lt(k2, k1) {
            assert(d1[w2].0 == k2);
            if w2 > 0 {
                assert(spec_key_lt(d1[0].0, d1[w2].0));
                crate::types::lemma_key_lt_trans(k1, k2, k1);
                assert(false);
            }
            assert(false);
        }
        assert(k1 == k2);
        assert(pairs_map(d2).contains_pair(d2[0].0, d2[0].1));
        assert(d1[0].1 == d2[0].1);
        assert(d1[0] == d2[0]);
        // the tails denote the mapping with the head key removed
        let t1 = d1.drop_first();
        let t2 = d2.drop_first();
        assert(forall|i: int| 0 <= i < t1.len() ==> (#[trigger] t1[i]) == d1[i + 1]);
        assert(forall|i: int| 0 <= i < t2.len() ==> (#[trigger] t2[i]) == d2[i + 1]);
        assert(entries_sorted(t1));
        assert(entries_sorted(t2));
        lemma_pairs_map_props(t1);
        lemma_pairs_map_props(t2);
        assert(!pairs_map(t1).dom().contains(k1)) by {
            if pairs_map(t1).dom().contains(k1) {
                let w = choose|i: int| 0 <= i < t1.len() && (#[trigger] t1[i]).0 == k1;
                assert(spec_key_lt(d1[0].0, d1[w + 1].0));
                lemma_key_lt_trichotomy(k1, k1);
                assert(false);
            }
        }
        assert(!pairs_map(t2).dom().contains(k1)) by {
            if pairs_map(t2).dom().contains(k1) {
                let w = choose|i: int| 0 <= i < t2.len() && (#[trigger] t2[i]).0 == k1;
                assert(spec_key_lt(d2[0].0, d2[w + 1].0));
                lemma_key_lt_trichotomy(k1, k1);
                assert(false);
            }
        }
        assert(pairs_map(t1) =~= pairs_map(d1).remove(k1)) by {
            assert(pairs_map(d1) == pairs_map(t1).insert(k1, d1[0].1));
        }
        assert(pairs_map(t2) =~= pairs_map(d2).remove(k1)) by {
            assert(pairs_map(d2) == pairs_map(t2).insert(k1, d2[0].1));
        }
        lemma_canonical_order(t1, t2);
        assert(d1.len() == d2.len());
        assert forall|i: int| 0 <= i < d1.len() implies d1[i] == d2[i] by {
            if i > 0 {
                assert(t1[i - 1] == d1[i]);
                assert(t2[i - 1] == d2[i]);
            }
        }
        assert(d1 =~= d2);
    }
}

/// Scalar and accelerated decoding agree: any two results that meet the
/// common decoding contract on the same input are the same outcome, with
/// the same value or the same error detail.
pub proof fn lemma_decoders_agree(
    s: Seq<u8>,
    r1: Result<BencodexValue, DecodeError>,
    r2: Result<BencodexValue, DecodeError>,
)
    requires
        spec_decoded(s, r1),
        spec_decoded(s, r2),
    ensures
        (r1 is Ok) == (r2 is Ok),
        r1 matches Result::Ok(v1) ==> (r2 matches Result::Ok(v2) && view_value(v1) == view_value(
            v2,
        )),
        r1 matches Result::Err(e1) ==> (r2 matches Result::Err(e2) && e1@ == e2@),
{
}

} // verus!
