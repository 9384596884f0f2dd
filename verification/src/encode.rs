use vstd::prelude::*;
use crate::digits::spec_dec_digits;
use crate::grammar::{
    lemma_encode_list_snoc, lemma_encode_pairs_snoc, spec_encode, spec_encode_int,
    spec_encode_key, spec_encode_list, spec_encode_pairs,
};
use crate::types::{
    lemma_view_pairs_index, view_key, view_list, view_pairs, view_value, BencodexKey,
    BencodexValue, BigInt, SpecValue, DIGIT_ZERO, MARK_COLON, MARK_DICT, MARK_END, MARK_FALSE,
    MARK_LIST, MARK_NULL, MARK_NUMBER, MARK_TEXT, MARK_TRUE,
};

verus! {

broadcast use vstd::std_specs::vec::axiom_vec_index_decreases, vstd::std_specs::vec::axiom_vec_decreases_to_view;

/// The error a sink may report from a write.
#[derive(Debug, PartialEq, Eq)]
pub struct Error {
    _private: (),
}

impl Error {
    pub fn new() -> (r: Error) {
        Error { _private: () }
    }
}

/// A byte sink. A well-behaved sink appends what it is handed; on an error
/// the sink may hold any partially written state.
pub trait Write {
    /// The bytes the sink holds, as this library models them.
    spec fn sink(&self) -> Seq<u8>;

    /// Append all of `data` to the sink, or report the sink's error.
    fn write_all(&mut self, data: &[u8]) -> (r: Result<(), Error>)
        ensures
            r is Ok ==> final(self).sink() == old(self).sink() + data@,
    ;
}

impl Write for Vec<u8> {
    open spec fn sink(&self) -> Seq<u8> {
        self@
    }

    fn write_all(&mut self, data: &[u8]) -> (r: Result<(), Error>)
        ensures
            r is Ok ==> final(self).sink() == old(self).sink() + data@,
    {
        self.extend_from_slice(data);
        Ok(())
    }
}

/// Append the canonical decimal digits of `n`.
fn push_decimal(buf: &mut Vec<u8>, n: usize)
    ensures
        final(buf)@ == old(buf)@ + spec_dec_digits(n as int),
    decreases n,
{
    if n < 10 {
        buf.push(DIGIT_ZERO + (n as u8));
        proof {
            assert(buf@ =~= old(buf)@ + spec_dec_digits(n as int));
        }
    } else {
        push_decimal(buf, n / 10);
        buf.push(DIGIT_ZERO + ((n % 10) as u8));
        proof {
            assert(buf@ =~= old(buf)@ + spec_dec_digits(n as int));
        }
    }
}

/// Append the canonical encoding of a number.
fn push_number(buf: &mut Vec<u8>, number: &BigInt)
    ensures
        final(buf)@ == old(buf)@ + seq![MARK_NUMBER] + spec_encode_int(number@) + seq![MARK_END],
{
    buf.push(MARK_NUMBER);
    let db = number.decimal_bytes();
    buf.extend_from_slice(db.as_slice());
    buf.push(MARK_END);
    proof {
        assert(buf@ =~= old(buf)@ + seq![MARK_NUMBER] + spec_encode_int(number@)
            + seq![MARK_END]);
    }
}

/// Append the canonical encoding of a key: the decimal byte length, the
/// separator and the bytes, after the text marker for a text key.
pub fn encode_key(key: &BencodexKey) -> (r: Vec<u8>)
    ensures
        r@ == spec_encode_key(key@),
{
    let mut buf: Vec<u8> = Vec::new();
    match key {
        BencodexKey::Binary(b) => {
            push_decimal(&mut buf, b.len());
            buf.push(MARK_COLON);
            buf.extend_from_slice(b.as_slice());
            proof {
                assert(buf@ =~= spec_encode_key(key@));
            }
        }
        BencodexKey::Text(t) => {
            buf.push(MARK_TEXT);
            push_decimal(&mut buf, t.len());
            buf.push(MARK_COLON);
            buf.extend_from_slice(t.as_slice());
            proof {
                assert(buf@ =~= spec_encode_key(key@));
            }
        }
    }
    buf
}

/// Append the canonical encoding of a value. Dictionary entries are written
/// in the order they are held; a well-formed dictionary holds them in the
/// canonical key order, which makes the output the value's canonical form.
pub fn encode_into(value: &BencodexValue, buf: &mut Vec<u8>)
    ensures
        final(buf)@ == old(buf)@ + spec_encode(view_value(*value)),
    decreases *value,
{
    match value {
        BencodexValue::Null => {
            buf.push(MARK_NULL);
            proof {
                assert(buf@ =~= old(buf)@ + spec_encode(view_value(*value)));
            }
        }
        BencodexValue::Boolean(b) => {
            if *b {
                buf.push(MARK_TRUE);
            } else {
                buf.push(MARK_FALSE);
            }
            proof {
                assert(buf@ =~= old(buf)@ + spec_encode(view_value(*value)));
            }
        }
        BencodexValue::Number(n) => {
            push_number(buf, n);
            proof {
                assert(old(buf)@ + seq![MARK_NUMBER] + spec_encode_int(n@) + seq![MARK_END]
                    =~= old(buf)@ + spec_encode(view_value(*value)));
            }
        }
        BencodexValue::Binary(b) => {
            push_decimal(buf, b.len());
            buf.push(MARK_COLON);
            buf.extend_from_slice(b.as_slice());
            proof {
                assert(buf@ =~= old(buf)@ + spec_encode(view_value(*value)));
            }
        }
        BencodexValue::Text(t) => {
            buf.push(MARK_TEXT);
            push_decimal(buf, t.len());
            buf.push(MARK_COLON);
            buf.extend_from_slice(t.as_slice());
            proof {
                assert(buf@ =~= old(buf)@ + spec_encode(view_value(*value)));
            }
        }
        BencodexValue::List(list) => {
            let ghost base = buf@;
            buf.push(MARK_LIST);
            let mut i: usize = 0;
            proof {
                assert(view_list(list@.take(0)) =~= Seq::<SpecValue>::empty());
                assert(buf@ =~= base + seq![MARK_LIST] + spec_encode_list(
                    view_list(list@.take(0)),
                ));
            }
            while i < list.len()
                invariant
                    *value == BencodexValue::List(*list),
                    0 <= i <= list@.len(),
                    buf@ == base + seq![MARK_LIST] + spec_encode_list(
                        view_list(list@.take(i as int)),
                    ),
                decreases list@.len() - i,
            {
                proof {
                    assert(decreases_to!(*value => (*value)->List_0));
                    assert((*value)->List_0 == *list);
                    assert(decreases_to!(*list => list@));
                    assert(decreases_to!(list@ => list@[i as int]));
                    assert(decreases_to!(*value => list@[i as int]));
                }
                encode_into(&list[i], buf);
                proof {
                    let prefix = view_list(list@.take(i as int));
                    let vv = view_value(list@[i as int]);
                    assert(list@.take(i as int + 1) =~= list@.take(i as int).push(list@[i as int]));
                    crate::types::lemma_view_list_push(list@.take(i as int), list@[i as int]);
                    assert(prefix.push(vv) =~= prefix + seq![vv]);
                    assert(view_list(list@.take(i as int + 1)) == prefix.push(vv));
                    lemma_encode_list_snoc(prefix, vv);
                    assert((base + seq![MARK_LIST] + spec_encode_list(prefix)) + spec_encode(vv)
                        =~= base + seq![MARK_LIST] + (spec_encode_list(prefix) + spec_encode(vv)));
                    assert(buf@ =~= base + seq![MARK_LIST] + spec_encode_list(
                        view_list(list@.take(i as int + 1)),
                    ));
                }
                i = i + 1;
            }
            buf.push(MARK_END);
            proof {
                assert(list@.take(list@.len() as int) =~= list@);
                assert(buf@ =~= old(buf)@ + spec_encode(view_value(*value)));
            }
        }
        BencodexValue::Dictionary(entries) => {
            let ghost base = buf@;
            buf.push(MARK_DICT);
            let mut i: usize = 0;
            proof {
                assert(view_pairs(entries@.take(0)) =~= Seq::<(crate::types::SpecKey,
                SpecValue)>::empty());
                assert(buf@ =~= base + seq![MARK_DICT] + spec_encode_pairs(
                    view_pairs(entries@.take(0)),
                ));
            }
            while i < entries.len()
                invariant
                    *value == BencodexValue::Dictionary(*entries),
                    0 <= i <= entries@.len(),
                    buf@ == base + seq![MARK_DICT] + spec_encode_pairs(
                        view_pairs(entries@.take(i as int)),
                    ),
                decreases entries@.len() - i,
            {
                let key_bytes = encode_key(&entries[i].0);
                buf.extend_from_slice(key_bytes.as_slice());
                proof {
                    assert(decreases_to!(*value => (*value)->Dictionary_0));
                    assert((*value)->Dictionary_0 == *entries);
                    assert(decreases_to!(*entries => entries@));
                    assert(decreases_to!(entries@ => entries@[i as int]));
                    assert(decreases_to!(entries@[i as int] => entries@[i as int].1));
                    assert(decreases_to!(*value => entries@[i as int].1));
                }
                encode_into(&entries[i].1, buf);
                proof {
                    let prefix = view_pairs(entries@.take(i as int));
                    let kk = view_key(entries@[i as int].0);
                    let vv = view_value(entries@[i as int].1);
                    assert(entries@.take(i as int + 1) =~= entries@.take(i as int).push(
                        entries@[i as int],
                    ));
                    lemma_view_pairs_push(entries@.take(i as int), entries@[i as int]);
                    assert(prefix.push((kk, vv)) =~= prefix + seq![(kk, vv)]);
                    assert(view_pairs(entries@.take(i as int + 1)) == prefix.push((kk, vv)));
                    lemma_encode_pairs_snoc(prefix, kk, vv);
                    assert(spec_encode_pairs(view_pairs(entries@.take(i as int + 1))) == (
                    spec_encode_pairs(prefix) + spec_encode_key(kk)) + spec_encode(vv));
                    assert(buf@ == ((base + seq![MARK_DICT] + spec_encode_pairs(prefix))
                        + spec_encode_key(kk)) + spec_encode(vv));
                    assert(((base + seq![MARK_DICT] + spec_encode_pairs(prefix))
                        + spec_encode_key(kk)) + spec_encode(vv) =~= base + seq![MARK_DICT] + ((
                    spec_encode_pairs(prefix) + spec_encode_key(kk)) + spec_encode(vv)));
                    assert(buf@ =~= base + seq![MARK_DICT] + spec_encode_pairs(
                        view_pairs(entries@.take(i as int + 1)),
                    ));
                }
                i = i + 1;
            }
            buf.push(MARK_END);
            proof {
                assert(entries@.take(entries@.len() as int) =~= entries@);
                assert(buf@ =~= old(buf)@ + spec_encode(view_value(*value)));
            }
        }
    }
}

/// Appending an entry to an entry vector appends its model pair.
pub proof fn lemma_view_pairs_push(
    ps: Seq<(BencodexKey, BencodexValue)>,
    x: (BencodexKey, BencodexValue),
)
    ensures
        view_pairs(ps.push(x)) == view_pairs(ps) + seq![(view_key(x.0), view_value(x.1))],
{
    lemma_view_pairs_index(ps);
    lemma_view_pairs_index(ps.push(x));
    assert(view_pairs(ps.push(x)) =~= view_pairs(ps) + seq![(view_key(x.0), view_value(x.1))]);
}

/// Anything that can be written to a sink in the format's canonical form.
pub trait Encode {
    /// The canonical bytes of this value.
    spec fn encoded(&self) -> Seq<u8>;

    /// Write the canonical bytes to the sink; a sink error propagates
    /// immediately and the sink may then hold a partial prefix.
    fn encode<W: Write>(&self, writer: &mut W) -> (r: Result<(), Error>)
        ensures
            r is Ok ==> final(writer).sink() == old(writer).sink() + self.encoded(),
    ;
}

impl Encode for BencodexValue {
    open spec fn encoded(&self) -> Seq<u8> {
        spec_encode(view_value(*self))
    }

    fn encode<W: Write>(&self, writer: &mut W) -> (r: Result<(), Error>)
        ensures
            r is Ok ==> final(writer).sink() == old(writer).sink() + self.encoded(),
    {
        let mut buf: Vec<u8> = Vec::new();
        encode_into(self, &mut buf);
        writer.write_all(buf.as_slice())
    }
}

} // verus!
