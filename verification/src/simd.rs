use vstd::prelude::*;
use vstd::slice::{slice_subrange, slice_to_vec};
use crate::decode::{
    digits_run_end, invalid, make_bigint, parse_len, unexpected, spec_decoded, DecodeError,
};
use crate::dict::{dict_insert, lemma_dict_insert_props, pairs_wf};
use crate::digits::spec_is_digit;
use crate::grammar::{
    items_then, lemma_digits_end, spec_parse, spec_parse_items,
    spec_parse_pairs, spec_value_as_key, SpecItems, SpecOutcome, SpecPairs, SpecReason,
};
use crate::structural::{
    build_structural_index, lemma_structural_positions, spec_is_structural, structural_positions,
    StructuralIndex,
};
use crate::types::{
    entries_sorted, spec_dict_insert, view_list, view_pairs, view_value, BencodexDictionary,
    BencodexKey, BencodexList, BencodexValue, SpecValue, DIGIT_NINE, DIGIT_ZERO, MARK_COLON, MARK_DICT, MARK_END,
    MARK_FALSE, MARK_LIST, MARK_MINUS, MARK_NULL, MARK_NUMBER, MARK_TEXT, MARK_TRUE,
};
use crate::utf8::validate_utf8;

verus! {

/// The value extractor: stage two of the two-stage decoder. It consumes the
/// structural index built by stage one to jump to the next delimiter
/// instead of scanning byte by byte, and is proved to return exactly what
/// the scalar decoder returns, error detail included.
pub struct SimdParser<'a> {
    input: &'a [u8],
    structural: &'a StructuralIndex,
    pos: usize,
    struct_idx: usize,
}

impl<'a> SimdParser<'a> {
    /// The parser's state invariant: the index belongs to the input, and
    /// every index entry the cursor has passed lies before the parse
    /// position.
    pub closed spec fn inv(&self) -> bool {
        &&& self.structural.indices@ == structural_positions(self.input@)
        &&& self.input@.len() <= u32::MAX
        &&& self.struct_idx <= self.structural.indices@.len()
        &&& forall|j: int|
            0 <= j < self.struct_idx ==> (#[trigger] self.structural.indices@[j]) < self.pos
    }

    pub closed spec fn spec_input(&self) -> Seq<u8> {
        self.input@
    }

    pub closed spec fn spec_pos(&self) -> int {
        self.pos as int
    }

    /// Create a parser over the input and its structural index.
    pub fn new(input: &'a [u8], structural: &'a StructuralIndex) -> (r: SimdParser<'a>)
        requires
            structural.indices@ == structural_positions(input@),
            input@.len() <= u32::MAX,
        ensures
            r.inv(),
            r.spec_input() == input@,
            r.spec_pos() == 0,
    {
        SimdParser { input, structural, pos: 0, struct_idx: 0 }
    }

    /// Report whether the byte at the parse position is the expected one:
    /// the error is the scalar decoder's for the same state.
    fn expect(&self, expected: u8) -> (r: Result<(), DecodeError>)
        ensures
            (r is Ok) == (self.pos < self.input@.len() && self.input@[self.pos as int]
                == expected),
            r matches Err(e) ==> e@ == if self.pos >= self.input@.len() {
                SpecReason::Invalid
            } else {
                SpecReason::Unexpected(self.input@[self.pos as int], self.pos as int)
            },
    {
        if self.pos >= self.input.len() {
            return Err(invalid());
        }
        let b = self.input[self.pos];
        if b != expected {
            return Err(unexpected(b, self.pos));
        }
        Ok(())
    }

    /// Advance the cursor to the next index entry at or after the parse
    /// position whose byte is the wanted delimiter. Entries the cursor
    /// skips are stale or mismatched, so the first match is the first
    /// occurrence of the delimiter in the remaining input.
    fn find_next_structural(&mut self, byte: u8) -> (r: Option<usize>)
        requires
            old(self).inv(),
            spec_is_structural(byte),
        ensures
            final(self).input == old(self).input,
            final(self).structural == old(self).structural,
            final(self).pos == old(self).pos,
            final(self).struct_idx <= final(self).structural.indices@.len(),
            match r {
                Some(p) => {
                    &&& old(self).pos <= p < old(self).input@.len()
                    &&& old(self).input@[p as int] == byte
                    &&& forall|q: int|
                        old(self).pos <= q < p ==> old(self).input@[q] != byte
                    &&& forall|j: int|
                        0 <= j < final(self).struct_idx
                            ==> (#[trigger] final(self).structural.indices@[j]) <= p
                },
                None => forall|q: int|
                    old(self).pos <= q < old(self).input@.len() ==> old(self).input@[q] != byte,
            },
    {
        let ghost s = self.input@;
        let len = self.structural.indices.len();
        while self.struct_idx < len
            invariant
                self.input == old(self).input,
                self.structural == old(self).structural,
                self.pos == old(self).pos,
                s == self.input@,
                len == self.structural.indices@.len(),
                self.structural.indices@ == structural_positions(s),
                s.len() <= u32::MAX,
                old(self).struct_idx <= self.struct_idx <= len,
                forall|j: int|
                    0 <= j < self.struct_idx ==> (#[trigger] self.structural.indices@[j])
                        < self.pos || s[self.structural.indices@[j] as int] != byte,
            decreases len - self.struct_idx,
        {
            proof {
                lemma_structural_positions(s);
            }
            let p32 = self.structural.indices[self.struct_idx];
            let p = p32 as usize;
            let si = self.struct_idx;
            self.struct_idx = si + 1;
            if p >= self.pos {
                if self.input[p] == byte {
                    proof {
                        let sp = self.structural.indices@;
                        assert forall|q: int| self.pos <= q < p implies s[q] != byte by {
                            if s[q] == byte {
                                assert(spec_is_structural(s[q]));
                                assert(sp.contains(q as u32));
                                let jq = choose|jq: int|
                                    0 <= jq < sp.len() && sp[jq] == q as u32;
                                assert(sp[jq] as int == q);
                                assert(jq != si as int);
                                if jq > si {
                                    assert(sp[si as int] < sp[jq]);
                                } else {
                                    assert(sp[jq] < self.pos || s[sp[jq] as int] != byte);
                                }
                            }
                        }
                        assert forall|j: int| 0 <= j < self.struct_idx implies (
                        #[trigger] sp[j]) <= p by {
                            if j < si {
                                assert(sp[j] < sp[si as int]);
                            }
                        }
                    }
                    return Some(p);
                }
            }
        }
        proof {
            lemma_structural_positions(s);
            let sp = self.structural.indices@;
            assert forall|q: int| self.pos <= q < s.len() implies s[q] != byte by {
                if s[q] == byte {
                    assert(spec_is_structural(s[q]));
                    assert(sp.contains(q as u32));
                    let jq = choose|jq: int| 0 <= jq < sp.len() && sp[jq] == q as u32;
                    assert(sp[jq] < self.pos || s[sp[jq] as int] != byte);
                }
            }
        }
        None
    }

    /// Parse a complete value from the input, starting at position zero.
    pub fn parse(&mut self) -> (r: Result<BencodexValue, DecodeError>)
        requires
            old(self).inv(),
        ensures
            match r {
                Result::Ok(v) => view_value(v).wf() && spec_parse(
                    old(self).spec_input(),
                    old(self).spec_pos(),
                ) == SpecOutcome::Found(view_value(v), final(self).spec_pos()),
                Result::Err(e) => spec_parse(old(self).spec_input(), old(self).spec_pos())
                    == SpecOutcome::Bad(e@),
            },
    {
        self.parse_value()
    }

    /// Parse a single value at the current position.
    fn parse_value(&mut self) -> (r: Result<BencodexValue, DecodeError>)
        requires
            old(self).inv(),
        ensures
            final(self).input == old(self).input,
            final(self).structural == old(self).structural,
            match r {
                Result::Ok(v) => {
                    &&& final(self).inv()
                    &&& old(self).pos < final(self).pos <= old(self).input@.len()
                    &&& view_value(v).wf()
                    &&& spec_parse(old(self).input@, old(self).pos as int) == SpecOutcome::Found(
                        view_value(v),
                        final(self).pos as int,
                    )
                },
                Result::Err(e) => spec_parse(old(self).input@, old(self).pos as int)
                    == SpecOutcome::Bad(e@),
            },
        decreases self.input@.len() - self.pos, 1int,
    {
        if self.pos >= self.input.len() {
            return Err(invalid());
        }
        let b = self.input[self.pos];
        if b == MARK_DICT {
            self.parse_dict()
        } else if b == MARK_LIST {
            self.parse_list()
        } else if b == MARK_TEXT {
            self.parse_unicode_string()
        } else if b == MARK_NUMBER {
            self.parse_integer()
        } else if b >= DIGIT_ZERO && b <= DIGIT_NINE {
            self.parse_byte_string()
        } else if b == MARK_TRUE {
            self.pos = self.pos + 1;
            Ok(BencodexValue::Boolean(true))
        } else if b == MARK_FALSE {
            self.pos = self.pos + 1;
            Ok(BencodexValue::Boolean(false))
        } else if b == MARK_NULL {
            self.pos = self.pos + 1;
            Ok(BencodexValue::Null)
        } else {
            Err(unexpected(b, self.pos))
        }
    }

    /// Parse an integer: the end marker is located through the structural
    /// index, and the digit span is then read exactly as the scalar decoder
    /// reads it, so even the failure reason agrees.
    fn parse_integer(&mut self) -> (r: Result<BencodexValue, DecodeError>)
        requires
            old(self).inv(),
            old(self).pos < old(self).input@.len(),
            old(self).input@[old(self).pos as int] == MARK_NUMBER,
        ensures
            final(self).input == old(self).input,
            final(self).structural == old(self).structural,
            match r {
                Result::Ok(v) => {
                    &&& final(self).inv()
                    &&& old(self).pos < final(self).pos <= old(self).input@.len()
                    &&& view_value(v).wf()
                    &&& spec_parse(old(self).input@, old(self).pos as int) == SpecOutcome::Found(
                        view_value(v),
                        final(self).pos as int,
                    )
                },
                Result::Err(e) => spec_parse(old(self).input@, old(self).pos as int)
                    == SpecOutcome::Bad(e@),
            },
    {
        let ghost s = self.input@;
        let ghost pos0 = self.pos as int;
        let input = self.input;
        let pos = self.pos;
        let len = input.len();
        let found = self.find_next_structural(MARK_END);
        let p = pos + 1;
        if p >= len {
            return Err(invalid());
        }
        let negative = input[p] == MARK_MINUS;
        let ds = if negative {
            p + 1
        } else {
            p
        };
        if ds >= len {
            return Err(invalid());
        }
        let db = input[ds];
        if db < DIGIT_ZERO || db > DIGIT_NINE {
            return Err(unexpected(db, ds));
        }
        let de = digits_run_end(input, ds);
        proof {
            lemma_digits_end(s, ds as int);
        }
        if de >= len {
            return Err(invalid());
        }
        let t = input[de];
        if t != MARK_END {
            return Err(unexpected(t, de));
        }
        match found {
            Some(e_pos) => {
                proof {
                    assert(s[de as int] == MARK_END);
                    assert(de as int >= e_pos);
                    assert(s[e_pos as int] == MARK_END);
                    assert(e_pos != pos0);
                    if negative {
                        assert(e_pos != p);
                    }
                    assert(e_pos >= ds);
                    if (e_pos as int) < de as int {
                        assert(spec_is_digit(
                            s.subrange(ds as int, de as int)[e_pos - ds as int],
                        ));
                        assert(s.subrange(ds as int, de as int)[e_pos - ds as int] == s[
                        e_pos as int]);
                        assert(false);
                    }
                    assert(de == e_pos);
                }
            }
            None => {
                proof {
                    assert(s[de as int] != MARK_END);
                    assert(false);
                }
            }
        }
        let number = make_bigint(input, ds, de, negative);
        self.pos = de + 1;
        Ok(BencodexValue::Number(number))
    }

    /// Parse a byte string: the length separator is located through the
    /// structural index; the length span is then read exactly as the
    /// scalar decoder reads it.
    fn parse_byte_string(&mut self) -> (r: Result<BencodexValue, DecodeError>)
        requires
            old(self).inv(),
            old(self).pos < old(self).input@.len(),
            spec_is_digit(old(self).input@[old(self).pos as int]),
        ensures
            final(self).input == old(self).input,
            final(self).structural == old(self).structural,
            match r {
                Result::Ok(v) => {
                    &&& final(self).inv()
                    &&& old(self).pos < final(self).pos <= old(self).input@.len()
                    &&& view_value(v).wf()
                    &&& spec_parse(old(self).input@, old(self).pos as int) == SpecOutcome::Found(
                        view_value(v),
                        final(self).pos as int,
                    )
                },
                Result::Err(e) => spec_parse(old(self).input@, old(self).pos as int)
                    == SpecOutcome::Bad(e@),
            },
    {
        let ghost s = self.input@;
        let ghost pos0 = self.pos as int;
        let input = self.input;
        let pos = self.pos;
        let len = input.len();
        let found = self.find_next_structural(MARK_COLON);
        let de = digits_run_end(input, pos);
        proof {
            lemma_digits_end(s, pos as int);
        }
        if de >= len {
            return Err(invalid());
        }
        let t = input[de];
        if t != MARK_COLON {
            return Err(unexpected(t, de));
        }
        proof {
            match found {
                Some(c) => {
                    assert(s[de as int] == MARK_COLON);
                    assert(de as int >= c);
                    assert(s[c as int] == MARK_COLON);
                    assert(c >= pos);
                    if (c as int) < de as int {
                        assert(spec_is_digit(s.subrange(pos as int, de as int)[c - pos as int]));
                        assert(s.subrange(pos as int, de as int)[c - pos as int] == s[c as int]);
                        assert(false);
                    }
                    assert(de == c);
                }
                None => {
                    assert(false);
                }
            }
        }
        let n = match parse_len(input, pos, de) {
            Some(n) => n,
            None => {
                return Err(invalid());
            }
        };
        if n > len - (de + 1) {
            return Err(invalid());
        }
        let payload = slice_to_vec(slice_subrange(input, de + 1, de + 1 + n));
        self.pos = de + 1 + n;
        Ok(BencodexValue::Binary(payload))
    }

    /// Parse a text string: as the byte-string production, with the text
    /// marker first and a UTF-8 check on the span.
    fn parse_unicode_string(&mut self) -> (r: Result<BencodexValue, DecodeError>)
        requires
            old(self).inv(),
            old(self).pos < old(self).input@.len(),
            old(self).input@[old(self).pos as int] == MARK_TEXT,
        ensures
            final(self).input == old(self).input,
            final(self).structural == old(self).structural,
            match r {
                Result::Ok(v) => {
                    &&& final(self).inv()
                    &&& old(self).pos < final(self).pos <= old(self).input@.len()
                    &&& view_value(v).wf()
                    &&& spec_parse(old(self).input@, old(self).pos as int) == SpecOutcome::Found(
                        view_value(v),
                        final(self).pos as int,
                    )
                },
                Result::Err(e) => spec_parse(old(self).input@, old(self).pos as int)
                    == SpecOutcome::Bad(e@),
            },
    {
        let ghost s = self.input@;
        let ghost pos0 = self.pos as int;
        let input = self.input;
        let pos = self.pos;
        let len = input.len();
        let p = pos + 1;
        if p >= len {
            return Err(invalid());
        }
        let db = input[p];
        if db < DIGIT_ZERO || db > DIGIT_NINE {
            return Err(invalid());
        }
        let found = self.find_next_structural(MARK_COLON);
        let de = digits_run_end(input, p);
        proof {
            lemma_digits_end(s, p as int);
        }
        if de >= len {
            return Err(invalid());
        }
        let t = input[de];
        if t != MARK_COLON {
            return Err(unexpected(t, de));
        }
        proof {
            match found {
                Some(c) => {
                    assert(s[de as int] == MARK_COLON);
                    assert(de as int >= c);
                    assert(s[c as int] == MARK_COLON);
                    assert(c != pos0);
                    assert(c >= p);
                    if (c as int) < de as int {
                        assert(spec_is_digit(s.subrange(p as int, de as int)[c - p as int]));
                        assert(s.subrange(p as int, de as int)[c - p as int] == s[c as int]);
                        assert(false);
                    }
                    assert(de == c);
                }
                None => {
                    assert(false);
                }
            }
        }
        let n = match parse_len(input, p, de) {
            Some(n) => n,
            None => {
                return Err(invalid());
            }
        };
        if n > len - (de + 1) {
            return Err(invalid());
        }
        let span = slice_subrange(input, de + 1, de + 1 + n);
        if !validate_utf8(span) {
            return Err(invalid());
        }
        let payload = slice_to_vec(span);
        self.pos = de + 1 + n;
        Ok(BencodexValue::Text(payload))
    }

    /// Parse a list.
    fn parse_list(&mut self) -> (r: Result<BencodexValue, DecodeError>)
        requires
            old(self).inv(),
            old(self).pos < old(self).input@.len(),
            old(self).input@[old(self).pos as int] == MARK_LIST,
        ensures
            final(self).input == old(self).input,
            final(self).structural == old(self).structural,
            match r {
                Result::Ok(v) => {
                    &&& final(self).inv()
                    &&& old(self).pos < final(self).pos <= old(self).input@.len()
                    &&& view_value(v).wf()
                    &&& spec_parse(old(self).input@, old(self).pos as int) == SpecOutcome::Found(
                        view_value(v),
                        final(self).pos as int,
                    )
                },
                Result::Err(e) => spec_parse(old(self).input@, old(self).pos as int)
                    == SpecOutcome::Bad(e@),
            },
        decreases self.input@.len() - self.pos, 0int,
    {
        let ghost s = self.input@;
        let ghost pos0 = self.pos as int;
        let ghost p0 = pos0 + 1;
        self.pos = self.pos + 1;
        let mut list: BencodexList = Vec::new();
        proof {
            assert(view_list(list@) =~= Seq::<SpecValue>::empty());
            match spec_parse_items(s, p0) {
                SpecItems::Found(items, end) => {
                    assert(view_list(list@) + items =~= items);
                }
                SpecItems::Bad(_) => {}
            }
        }
        while self.pos < self.input.len() && self.input[self.pos] != MARK_END
            invariant
                self.input == old(self).input,
                self.structural == old(self).structural,
                self.inv(),
                s == self.input@,
                pos0 == old(self).pos,
                pos0 + 1 == p0,
                0 <= pos0 < s.len(),
                s[pos0] == MARK_LIST,
                p0 <= self.pos <= s.len(),
                spec_parse_items(s, p0) == items_then(
                    view_list(list@),
                    spec_parse_items(s, self.pos as int),
                ),
                forall|i: int|
                    0 <= i < view_list(list@).len() ==> (#[trigger] view_list(list@)[i]).wf(),
            decreases s.len() - self.pos,
        {
            let ghost cur = self.pos as int;
            match self.parse_value() {
                Result::Err(e) => {
                    proof {
                        assert(spec_parse_items(s, cur) == SpecItems::Bad(e@));
                    }
                    return Err(e);
                }
                Result::Ok(val) => {
                    proof {
                        let vv = view_value(val);
                        let next = self.pos as int;
                        assert(spec_parse_items(s, cur) == items_then(
                            seq![vv],
                            spec_parse_items(s, next),
                        ));
                        crate::types::lemma_view_list_push(list@, val);
                        match spec_parse_items(s, next) {
                            SpecItems::Found(items, end) => {
                                assert((view_list(list@) + (seq![vv] + items)) =~= (view_list(
                                    list@,
                                ).push(vv) + items));
                                assert(view_list(list@).push(vv) =~= view_list(list@) + seq![vv]);
                            }
                            SpecItems::Bad(_) => {}
                        }
                    }
                    list.push(val);
                }
            }
        }
        match self.expect(MARK_END) {
            Result::Err(e) => {
                proof {
                    assert(self.pos >= s.len());
                }
                return Err(e);
            }
            Result::Ok(_) => {}
        }
        proof {
            assert(s[self.pos as int] == MARK_END);
            assert(spec_parse_items(s, self.pos as int) == SpecItems::Found(
                Seq::<SpecValue>::empty(),
                self.pos as int + 1,
            ));
            assert(view_list(list@) + Seq::<SpecValue>::empty() =~= view_list(list@));
        }
        self.pos = self.pos + 1;
        Ok(BencodexValue::List(list))
    }

    /// Parse a dictionary: each key must decode to a binary or text value;
    /// a repeated key takes the later value.
    fn parse_dict(&mut self) -> (r: Result<BencodexValue, DecodeError>)
        requires
            old(self).inv(),
            old(self).pos < old(self).input@.len(),
            old(self).input@[old(self).pos as int] == MARK_DICT,
        ensures
            final(self).input == old(self).input,
            final(self).structural == old(self).structural,
            match r {
                Result::Ok(v) => {
                    &&& final(self).inv()
                    &&& old(self).pos < final(self).pos <= old(self).input@.len()
                    &&& view_value(v).wf()
                    &&& spec_parse(old(self).input@, old(self).pos as int) == SpecOutcome::Found(
                        view_value(v),
                        final(self).pos as int,
                    )
                },
                Result::Err(e) => spec_parse(old(self).input@, old(self).pos as int)
                    == SpecOutcome::Bad(e@),
            },
        decreases self.input@.len() - self.pos, 0int,
    {
        let ghost s = self.input@;
        let ghost pos0 = self.pos as int;
        let ghost p0 = pos0 + 1;
        self.pos = self.pos + 1;
        let mut entries: BencodexDictionary = Vec::new();
        proof {
            assert(view_pairs(entries@) =~= Seq::<(crate::types::SpecKey, SpecValue)>::empty());
        }
        while self.pos < self.input.len() && self.input[self.pos] != MARK_END
            invariant
                self.input == old(self).input,
                self.structural == old(self).structural,
                self.inv(),
                s == self.input@,
                pos0 == old(self).pos,
                pos0 + 1 == p0,
                0 <= pos0 < s.len(),
                s[pos0] == MARK_DICT,
                p0 <= self.pos <= s.len(),
                spec_parse_pairs(s, p0, Seq::empty()) == spec_parse_pairs(
                    s,
                    self.pos as int,
                    view_pairs(entries@),
                ),
                entries_sorted(view_pairs(entries@)),
                pairs_wf(view_pairs(entries@)),
            decreases s.len() - self.pos,
        {
            let ghost acc = view_pairs(entries@);
            let ghost cur = self.pos as int;
            let key = match self.parse_value() {
                Result::Err(e) => {
                    proof {
                        assert(spec_parse_pairs(s, cur, acc) == SpecPairs::Bad(e@));
                    }
                    return Err(e);
                }
                Result::Ok(kval) => {
                    let ghost kv = view_value(kval);
                    match kval {
                        BencodexValue::Binary(bytes) => BencodexKey::Binary(bytes),
                        BencodexValue::Text(text) => BencodexKey::Text(text),
                        _ => {
                            proof {
                                assert(spec_value_as_key(kv) is None);
                                assert(spec_parse_pairs(s, cur, acc) == SpecPairs::Bad(
                                    SpecReason::Invalid,
                                ));
                            }
                            return Err(invalid());
                        }
                    }
                }
            };
            let ghost gk = key@;
            let ghost kp = self.pos as int;
            let value = match self.parse_value() {
                Result::Err(e) => {
                    proof {
                        assert(spec_parse(s, kp) == SpecOutcome::Bad(e@));
                        assert(spec_parse_pairs(s, cur, acc) == SpecPairs::Bad(e@));
                    }
                    return Err(e);
                }
                Result::Ok(val) => val,
            };
            let ghost gv = view_value(value);
            proof {
                assert(spec_parse_pairs(s, cur, acc) == spec_parse_pairs(
                    s,
                    self.pos as int,
                    spec_dict_insert(acc, gk, gv),
                ));
                lemma_dict_insert_props(acc, gk, gv);
            }
            dict_insert(&mut entries, key, value);
        }
        match self.expect(MARK_END) {
            Result::Err(e) => {
                proof {
                    assert(self.pos >= s.len());
                }
                return Err(e);
            }
            Result::Ok(_) => {}
        }
        proof {
            assert(s[self.pos as int] == MARK_END);
            assert(spec_parse_pairs(s, self.pos as int, view_pairs(entries@)) == SpecPairs::Found(
                view_pairs(entries@),
                self.pos as int + 1,
            ));
        }
        self.pos = self.pos + 1;
        Ok(BencodexValue::Dictionary(entries))
    }
}

/// Decode one value from the front of the input with the two-stage decoder:
/// a structural scan, then extraction over the index. The contract is the
/// scalar decoder's, so for every input the two return the same result.
/// The index holds positions as 32-bit values, which bounds the input;
/// longer inputs take the scalar decoder.
pub fn decode_simd(input: &[u8]) -> (r: Result<BencodexValue, DecodeError>)
    requires
        input@.len() <= u32::MAX,
    ensures
        spec_decoded(input@, r),
{
    let structural_index = build_structural_index(input);
    let mut parser = SimdParser::new(input, &structural_index);
    parser.parse()
}

} // verus!
