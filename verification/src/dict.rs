use vstd::prelude::*;
use core::cmp::Ordering;
use crate::types::{
    entries_sorted, lemma_bytes_lt_trichotomy, lemma_key_lt_trichotomy, lemma_key_lt_trans,
    spec_bytes_lt, spec_dict_insert, spec_key_lt, spec_key_wf, view_pairs, lemma_view_pairs_index,
    BencodexDictionary, BencodexKey, BencodexValue, SpecKey, SpecValue,
};

verus! {

/// Every entry's key is well-formed and every entry's value meets the data
/// model's invariant.
pub open spec fn pairs_wf(es: Seq<(SpecKey, SpecValue)>) -> bool {
    forall|i: int|
        0 <= i < es.len() ==> spec_key_wf((#[trigger] es[i]).0) && es[i].1.wf()
}

/// The lexicographic order is decided at the first position where the two
/// sequences differ, or by length when one is a prefix of the other.
pub proof fn lemma_bytes_lt_at(a: Seq<u8>, b: Seq<u8>, i: int)
    requires
        0 <= i <= a.len(),
        i <= b.len(),
        forall|j: int| 0 <= j < i ==> a[j] == b[j],
    ensures
        i < a.len() && i < b.len() && a[i] < b[i] ==> spec_bytes_lt(a, b),
        i == a.len() && i < b.len() ==> spec_bytes_lt(a, b),
        i == a.len() && i == b.len() ==> a =~= b,
    decreases i,
{
    if i == 0 {
        if a.len() == 0 && b.len() == 0 {
            assert(a =~= b);
        }
    } else {
        assert(a[0] == b[0]);
        assert(forall|j: int| 0 <= j < i - 1 ==> a.skip(1)[j] == b.skip(1)[j]) by {
            assert(forall|j: int|
                0 <= j < i - 1 ==> a.skip(1)[j] == a[j + 1] && b.skip(1)[j] == b[j + 1]);
        }
        lemma_bytes_lt_at(a.skip(1), b.skip(1), i - 1);
        if i < a.len() && i < b.len() && a[i] < b[i] {
            assert(a.skip(1)[i - 1] == a[i]);
            assert(b.skip(1)[i - 1] == b[i]);
        }
        if i == a.len() && i == b.len() {
            assert(a.skip(1) =~= b.skip(1));
            assert forall|j: int| 0 <= j < a.len() implies a[j] == b[j] by {
                if j > 0 {
                    assert(a.skip(1)[j - 1] == a[j]);
                    assert(b.skip(1)[j - 1] == b[j]);
                }
            }
            assert(a =~= b);
        }
    }
}

/// Compare two byte vectors in the lexicographic order.
pub fn compare_vector(xs: &Vec<u8>, ys: &Vec<u8>) -> (r: Ordering)
    ensures
        (r == Ordering::Less) == spec_bytes_lt(xs@, ys@),
        (r == Ordering::Equal) == (xs@ == ys@),
        (r == Ordering::Greater) == spec_bytes_lt(ys@, xs@),
{
    proof {
        lemma_bytes_lt_trichotomy(xs@, ys@);
    }
    let n: usize = if xs.len() < ys.len() {
        xs.len()
    } else {
        ys.len()
    };
    let mut i: usize = 0;
    while i < n
        invariant
            0 <= i <= n,
            n <= xs@.len(),
            n <= ys@.len(),
            n == if xs@.len() < ys@.len() {
                xs@.len()
            } else {
                ys@.len()
            },
            forall|j: int| 0 <= j < i ==> xs@[j] == ys@[j],
        decreases n - i,
    {
        if xs[i] < ys[i] {
            proof {
                lemma_bytes_lt_at(xs@, ys@, i as int);
                lemma_bytes_lt_trichotomy(xs@, ys@);
            }
            return Ordering::Less;
        }
        if xs[i] > ys[i] {
            proof {
                lemma_bytes_lt_at(ys@, xs@, i as int);
                lemma_bytes_lt_trichotomy(xs@, ys@);
            }
            return Ordering::Greater;
        }
        i = i + 1;
    }
    if xs.len() < ys.len() {
        proof {
            lemma_bytes_lt_at(xs@, ys@, n as int);
            lemma_bytes_lt_trichotomy(xs@, ys@);
        }
        Ordering::Less
    } else if xs.len() > ys.len() {
        proof {
            lemma_bytes_lt_at(ys@, xs@, n as int);
            lemma_bytes_lt_trichotomy(xs@, ys@);
        }
        Ordering::Greater
    } else {
        proof {
            lemma_bytes_lt_at(xs@, ys@, n as int);
            lemma_bytes_lt_trichotomy(xs@, ys@);
        }
        Ordering::Equal
    }
}

/// Compare two keys in the canonical key order.
pub fn key_cmp(x: &BencodexKey, y: &BencodexKey) -> (r: Ordering)
    ensures
        (r == Ordering::Less) == spec_key_lt(x@, y@),
        (r == Ordering::Equal) == (x@ == y@),
        (r == Ordering::Greater) == spec_key_lt(y@, x@),
{
    proof {
        lemma_key_lt_trichotomy(x@, y@);
    }
    match (x, y) {
        (BencodexKey::Binary(a), BencodexKey::Binary(b)) => compare_vector(a, b),
        (BencodexKey::Binary(_), BencodexKey::Text(_)) => Ordering::Less,
        (BencodexKey::Text(_), BencodexKey::Binary(_)) => Ordering::Greater,
        (BencodexKey::Text(a), BencodexKey::Text(b)) => compare_vector(a, b),
    }
}

/// Inserting into a sorted entry sequence keeps it sorted, keeps its
/// entries well-formed, and adds nothing but the new entry.
pub proof fn lemma_dict_insert_props(es: Seq<(SpecKey, SpecValue)>, k: SpecKey, v: SpecValue)
    requires
        entries_sorted(es),
    ensures
        entries_sorted(spec_dict_insert(es, k, v)),
        forall|i: int|
            0 <= i < spec_dict_insert(es, k, v).len() ==> (#[trigger] spec_dict_insert(es, k, v)[i])
                == (k, v) || es.contains(spec_dict_insert(es, k, v)[i]),
        pairs_wf(es) && spec_key_wf(k) && v.wf() ==> pairs_wf(spec_dict_insert(es, k, v)),
    decreases es.len(),
{
    let res = spec_dict_insert(es, k, v);
    if es.len() == 0 {
        assert(res =~= seq![(k, v)]);
    } else if spec_key_lt(k, es[0].0) {
        assert(res =~= seq![(k, v)] + es);
        assert forall|i: int, j: int| 0 <= i < j < res.len() implies spec_key_lt(
            #[trigger] res[i].0,
            #[trigger] res[j].0,
        ) by {
            if i == 0 {
                if j > 1 {
                    lemma_key_lt_trans(k, es[0].0, es[j - 1].0);
                }
            }
        }
        assert(forall|i: int| 0 < i < res.len() ==> #[trigger] res[i] == es[i - 1]);
    } else if k == es[0].0 {
        assert(res =~= seq![(k, v)] + es.skip(1));
        assert forall|i: int, j: int| 0 <= i < j < res.len() implies spec_key_lt(
            #[trigger] res[i].0,
            #[trigger] res[j].0,
        ) by {
            if i == 0 {
                assert(res[j] == es[j]);
            } else {
                assert(res[i] == es[i] && res[j] == es[j]);
            }
        }
        assert forall|i: int| 0 < i < res.len() implies es.contains(#[trigger] res[i]) by {
            assert(res[i] == es[i]);
        }
    } else {
        lemma_key_lt_trichotomy(k, es[0].0);
        assert(spec_key_lt(es[0].0, k));
        assert(entries_sorted(es.skip(1))) by {
            assert(forall|i: int, j: int|
                0 <= i < j < es.skip(1).len() ==> es.skip(1)[i] == es[i + 1] && es.skip(1)[j]
                    == es[j + 1]);
        }
        lemma_dict_insert_props(es.skip(1), k, v);
        let rec = spec_dict_insert(es.skip(1), k, v);
        assert(res =~= seq![es[0]] + rec);
        assert forall|i: int| 0 <= i < res.len() implies (#[trigger] res[i]) == (k, v)
            || es.contains(res[i]) by {
            if i == 0 {
                assert(es[0] == res[i]);
            } else {
                assert(res[i] == rec[i - 1]);
                if rec[i - 1] == (k, v) {
                } else {
                    assert(es.skip(1).contains(rec[i - 1]));
                    let w = choose|w: int| 0 <= w < es.skip(1).len() && es.skip(1)[w] == rec[i - 1];
                    assert(es[w + 1] == rec[i - 1]);
                }
            }
        }
        assert forall|i: int, j: int| 0 <= i < j < res.len() implies spec_key_lt(
            #[trigger] res[i].0,
            #[trigger] res[j].0,
        ) by {
            if i == 0 {
                assert(res[j] == rec[j - 1]);
                if rec[j - 1] == (k, v) {
                    assert(spec_key_lt(es[0].0, k));
                } else {
                    assert(es.skip(1).contains(rec[j - 1]));
                    let w = choose|w: int|
                        0 <= w < es.skip(1).len() && es.skip(1)[w] == rec[j - 1];
                    assert(es.skip(1)[w] == es[w + 1]);
                    assert(spec_key_lt(es[0].0, es[w + 1].0));
                }
            } else {
                assert(res[i] == rec[i - 1] && res[j] == rec[j - 1]);
            }
        }
        if pairs_wf(es) && spec_key_wf(k) && v.wf() {
            assert(pairs_wf(es.skip(1))) by {
                assert(forall|i: int|
                    0 <= i < es.skip(1).len() ==> #[trigger] es.skip(1)[i] == es[i + 1]);
            }
        }
    }
}

/// Insert an entry into a canonically sorted dictionary, keeping the order;
/// an entry under the same key is replaced.
pub fn dict_insert(entries: &mut BencodexDictionary, key: BencodexKey, value: BencodexValue)
    ensures
        view_pairs(final(entries)@) == spec_dict_insert(view_pairs(old(entries)@), key@, value@),
{
    let ghost es0 = view_pairs(old(entries)@);
    proof {
        lemma_view_pairs_index(old(entries)@);
    }
    let len = entries.len();
    let mut idx: usize = 0;
    while idx < len
        invariant
            0 <= idx <= len,
            len == entries@.len(),
            entries@ == old(entries)@,
            es0 == view_pairs(old(entries)@),
            forall|j: int| 0 <= j < idx ==> spec_key_lt(#[trigger] es0[j].0, key@),
        decreases len - idx,
    {
        let probe = key_cmp(&entries[idx].0, &key);
        proof {
            lemma_view_pairs_index(entries@);
        }
        match probe {
            Ordering::Less => {
                idx = idx + 1;
            }
            Ordering::Equal => {
                proof {
                    lemma_dict_insert_split(es0, key@, value@, idx as int);
                }
                entries[idx] = (key, value);
                proof {
                    lemma_view_pairs_index(entries@);
                    assert(view_pairs(entries@) =~= es0.update(idx as int, (key@, value@)));
                }
                return ;
            }
            Ordering::Greater => {
                proof {
                    lemma_dict_insert_split(es0, key@, value@, idx as int);
                }
                entries.insert(idx, (key, value));
                proof {
                    lemma_view_pairs_index(entries@);
                    assert(view_pairs(entries@) =~= es0.take(idx as int) + seq![(key@, value@)]
                        + es0.skip(idx as int));
                }
                return ;
            }
        }
    }
    proof {
        lemma_dict_insert_split(es0, key@, value@, len as int);
    }
    entries.push((key, value));
    proof {
        lemma_view_pairs_index(entries@);
        assert(view_pairs(entries@) =~= es0.take(len as int) + seq![(key@, value@)] + es0.skip(
            len as int,
        ));
    }
}

/// Where the scan of `dict_insert` stops determines the inserted shape.
pub proof fn lemma_dict_insert_split(es: Seq<(SpecKey, SpecValue)>, k: SpecKey, v: SpecValue, idx: int)
    requires
        0 <= idx <= es.len(),
        forall|j: int| 0 <= j < idx ==> spec_key_lt(#[trigger] es[j].0, k),
    ensures
        idx < es.len() && es[idx].0 == k ==> spec_dict_insert(es, k, v) == es.update(idx, (k, v)),
        idx < es.len() && spec_key_lt(k, es[idx].0) ==> spec_dict_insert(es, k, v) == es.take(idx)
            + seq![(k, v)] + es.skip(idx),
        idx == es.len() ==> spec_dict_insert(es, k, v) == es.take(idx) + seq![(k, v)] + es.skip(
            idx,
        ),
    decreases idx,
{
    if idx == 0 {
        if es.len() == 0 {
            assert(spec_dict_insert(es, k, v) =~= es.take(0) + seq![(k, v)] + es.skip(0));
        } else if es[0].0 == k {
            lemma_key_lt_trichotomy(k, es[0].0);
            assert(spec_dict_insert(es, k, v) == seq![(k, v)] + es.skip(1));
            assert forall|j: int| 0 <= j < es.len() implies (seq![(k, v)] + es.skip(1))[j]
                == es.update(0, (k, v))[j] by {
                if j > 0 {
                    assert(es.skip(1)[j - 1] == es[j]);
                }
            }
            assert(spec_dict_insert(es, k, v) =~= es.update(0, (k, v)));
        } else if spec_key_lt(k, es[0].0) {
            assert(spec_dict_insert(es, k, v) =~= es.take(0) + seq![(k, v)] + es.skip(0));
        }
    } else {
        lemma_key_lt_trichotomy(k, es[0].0);
        assert(spec_key_lt(es[0].0, k));
        assert(forall|j: int| 0 <= j < idx - 1 ==> #[trigger] es.skip(1)[j] == es[j + 1]);
        lemma_dict_insert_split(es.skip(1), k, v, idx - 1);
        let rec = spec_dict_insert(es.skip(1), k, v);
        assert(spec_dict_insert(es, k, v) == seq![es[0]] + rec);
        if idx < es.len() && es[idx].0 == k {
            assert(es.skip(1)[idx - 1] == es[idx]);
            assert(rec == es.skip(1).update(idx - 1, (k, v)));
            assert(seq![es[0]] + es.skip(1).update(idx - 1, (k, v)) =~= es.update(idx, (k, v)));
        } else if idx == es.len() || spec_key_lt(k, es[idx].0) {
            if idx < es.len() {
                assert(es.skip(1)[idx - 1] == es[idx]);
            }
            assert(rec == es.skip(1).take(idx - 1) + seq![(k, v)] + es.skip(1).skip(idx - 1));
            assert(seq![es[0]] + (es.skip(1).take(idx - 1) + seq![(k, v)] + es.skip(1).skip(
                idx - 1,
            )) =~= es.take(idx) + seq![(k, v)] + es.skip(idx));
        }
    }
}


/// The mapping a dictionary's entries denote.
pub open spec fn pairs_map(es: Seq<(SpecKey, SpecValue)>) -> Map<SpecKey, SpecValue>
    decreases es.len(),
{
    if es.len() == 0 {
        Map::empty()
    } else {
        pairs_map(es.drop_first()).insert(es[0].0, es[0].1)
    }
}

/// A sorted entry sequence holds each of its pairs in its mapping, and its
/// mapping's domain holds exactly its keys.
pub proof fn lemma_pairs_map_props(es: Seq<(SpecKey, SpecValue)>)
    requires
        entries_sorted(es),
    ensures
        forall|i: int|
            0 <= i < es.len() ==> pairs_map(es).contains_pair((#[trigger] es[i]).0, es[i].1),
        forall|k: SpecKey|
            pairs_map(es).dom().contains(k) ==> exists|i: int|
                0 <= i < es.len() && (#[trigger] es[i]).0 == k,
    decreases es.len(),
{
    if es.len() > 0 {
        let tail = es.drop_first();
        assert(forall|i: int| 0 <= i < tail.len() ==> (#[trigger] tail[i]) == es[i + 1]);
        lemma_pairs_map_props(tail);
        assert forall|i: int| 0 <= i < es.len() implies pairs_map(es).contains_pair(
            (#[trigger] es[i]).0,
            es[i].1,
        ) by {
            if i > 0 {
                assert(pairs_map(tail).contains_pair(tail[i - 1].0, tail[i - 1].1));
                lemma_key_lt_trichotomy(es[0].0, es[i].0);
                assert(spec_key_lt(es[0].0, es[i].0));
            }
        }
        assert forall|k: SpecKey| pairs_map(es).dom().contains(k) implies exists|i: int|
            0 <= i < es.len() && (#[trigger] es[i]).0 == k by {
            if k == es[0].0 {
                assert(es[0].0 == k);
            } else {
                assert(pairs_map(tail).dom().contains(k));
                let w = choose|w: int| 0 <= w < tail.len() && (#[trigger] tail[w]).0 == k;
                assert(es[w + 1].0 == k);
            }
        }
    }
}

/// Inserting into a sorted dictionary updates its mapping at the key.
pub proof fn lemma_dict_insert_map(es: Seq<(SpecKey, SpecValue)>, k: SpecKey, v: SpecValue)
    requires
        entries_sorted(es),
    ensures
        pairs_map(spec_dict_insert(es, k, v)) == pairs_map(es).insert(k, v),
    decreases es.len(),
{
    let res = spec_dict_insert(es, k, v);
    if es.len() == 0 {
        assert(res == seq![(k, v)]);
        assert(res[0] == (k, v));
        assert(res.drop_first() =~= Seq::<(SpecKey, SpecValue)>::empty());
        assert(pairs_map(res) == pairs_map(Seq::<(SpecKey, SpecValue)>::empty()).insert(k, v));
        assert(pairs_map(es) == Map::<SpecKey, SpecValue>::empty());
        assert(pairs_map(Seq::<(SpecKey, SpecValue)>::empty()) == Map::<SpecKey,
        SpecValue>::empty());
    } else if spec_key_lt(k, es[0].0) {
        assert(res == seq![(k, v)] + es);
        assert(res.drop_first() =~= es);
        assert(pairs_map(res) == pairs_map(es).insert(k, v));
    } else if k == es[0].0 {
        assert(res == seq![(k, v)] + es.skip(1));
        assert(res.drop_first() =~= es.skip(1));
        assert(es.drop_first() =~= es.skip(1));
        assert(pairs_map(res) == pairs_map(es.skip(1)).insert(k, v));
        assert(pairs_map(es) == pairs_map(es.skip(1)).insert(es[0].0, es[0].1));
        assert(pairs_map(es.skip(1)).insert(k, es[0].1).insert(k, v) =~= pairs_map(
            es.skip(1),
        ).insert(k, v));
    } else {
        lemma_key_lt_trichotomy(k, es[0].0);
        assert(entries_sorted(es.skip(1))) by {
            assert(forall|i: int|
                0 <= i < es.skip(1).len() ==> (#[trigger] es.skip(1)[i]) == es[i + 1]);
        }
        lemma_dict_insert_map(es.skip(1), k, v);
        let rec = spec_dict_insert(es.skip(1), k, v);
        assert(res == seq![es[0]] + rec);
        assert(res.drop_first() =~= rec);
        assert(es.drop_first() =~= es.skip(1));
        assert(pairs_map(res) == pairs_map(rec).insert(es[0].0, es[0].1));
        assert(pairs_map(rec) == pairs_map(es.skip(1)).insert(k, v));
        assert(pairs_map(es.skip(1)).insert(k, v).insert(es[0].0, es[0].1) =~= pairs_map(
            es.skip(1),
        ).insert(es[0].0, es[0].1).insert(k, v));
    }
}

} // verus!
