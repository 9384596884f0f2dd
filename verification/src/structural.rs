use vstd::prelude::*;
use crate::digits::spec_is_digit;
use crate::types::{
    DIGIT_NINE, DIGIT_ZERO, MARK_COLON, MARK_DICT, MARK_END, MARK_FALSE, MARK_LIST, MARK_NULL,
    MARK_NUMBER, MARK_TEXT, MARK_TRUE,
};

verus! {

/// A byte belongs to the fixed structural class: the seven type markers,
/// the two delimiters, or a digit.
pub open spec fn spec_is_structural(b: u8) -> bool {
    ||| b == MARK_NULL
    ||| b == MARK_TRUE
    ||| b == MARK_FALSE
    ||| b == MARK_NUMBER
    ||| b == MARK_LIST
    ||| b == MARK_DICT
    ||| b == MARK_TEXT
    ||| b == MARK_COLON
    ||| b == MARK_END
    ||| spec_is_digit(b)
}

/// The positions of all structural bytes of the input, in increasing order.
pub open spec fn structural_positions(s: Seq<u8>) -> Seq<u32>
    decreases s.len(),
{
    if s.len() == 0 {
        Seq::empty()
    } else if spec_is_structural(s.last()) {
        structural_positions(s.drop_last()).push((s.len() - 1) as u32)
    } else {
        structural_positions(s.drop_last())
    }
}

/// The structural index holds exactly the structural positions, sorted.
pub proof fn lemma_structural_positions(s: Seq<u8>)
    requires
        s.len() <= u32::MAX,
    ensures
        forall|i: int|
            0 <= i < structural_positions(s).len() ==> (#[trigger] structural_positions(s)[i])
                < s.len() && spec_is_structural(s[structural_positions(s)[i] as int]),
        forall|i: int, j: int|
            0 <= i < j < structural_positions(s).len() ==> structural_positions(s)[i]
                < structural_positions(s)[j],
        forall|p: int|
            0 <= p < s.len() && spec_is_structural(s[p]) ==> structural_positions(s).contains(
                p as u32,
            ),
    decreases s.len(),
{
    if s.len() > 0 {
        lemma_structural_positions(s.drop_last());
        let sp = structural_positions(s);
        let spp = structural_positions(s.drop_last());
        assert(forall|i: int| 0 <= i < s.len() - 1 ==> s.drop_last()[i] == s[i]);
        assert forall|p: int| 0 <= p < s.len() && spec_is_structural(s[p]) implies sp.contains(
            p as u32,
        ) by {
            if p == s.len() - 1 {
                assert(sp.last() == p as u32);
                assert(sp[sp.len() - 1] == p as u32);
            } else {
                assert(spp.contains(p as u32));
                let w = choose|w: int| 0 <= w < spp.len() && spp[w] == p as u32;
                if spec_is_structural(s.last()) {
                    assert(sp[w] == p as u32);
                } else {
                    assert(sp == spp);
                }
            }
        }
        if spec_is_structural(s.last()) {
            assert forall|i: int, j: int| 0 <= i < j < sp.len() implies sp[i] < sp[j] by {
                if j < sp.len() - 1 {
                    assert(sp[i] == spp[i] && sp[j] == spp[j]);
                } else {
                    assert(sp[j] == (s.len() - 1) as u32);
                    assert(sp[i] == spp[i]);
                    assert(spp[i] < s.len() - 1);
                }
            }
        }
    }
}

/// Check whether a byte is a structural character.
pub fn is_structural_char(b: u8) -> (r: bool)
    ensures
        r == spec_is_structural(b),
{
    b == MARK_NULL || b == MARK_TRUE || b == MARK_FALSE || b == MARK_NUMBER || b == MARK_LIST
        || b == MARK_DICT || b == MARK_TEXT || b == MARK_COLON || b == MARK_END || (DIGIT_ZERO <= b
        && b <= DIGIT_NINE)
}

/// Append the positions of all structural bytes of the input, in order.
pub fn scan_structural_scalar(input: &[u8], indices: &mut Vec<u32>)
    requires
        input@.len() <= u32::MAX,
    ensures
        final(indices)@ == old(indices)@ + structural_positions(input@),
{
    let len = input.len();
    let mut pos: usize = 0;
    proof {
        assert(input@.take(0) =~= Seq::<u8>::empty());
        assert(indices@ =~= old(indices)@ + structural_positions(input@.take(0)));
    }
    while pos < len
        invariant
            0 <= pos <= len,
            len == input@.len() <= u32::MAX,
            indices@ == old(indices)@ + structural_positions(input@.take(pos as int)),
        decreases len - pos,
    {
        let byte = input[pos];
        proof {
            assert(input@.take(pos as int + 1).drop_last() =~= input@.take(pos as int));
            assert(input@.take(pos as int + 1).last() == input@[pos as int]);
        }
        if is_structural_char(byte) {
            indices.push(pos as u32);
        }
        pos = pos + 1;
    }
    proof {
        assert(input@.take(len as int) =~= input@);
    }
}

/// Index of structural character positions in the input, sorted and
/// complete: a position stands in it exactly when the byte there is
/// structural.
#[derive(Debug)]
pub struct StructuralIndex {
    /// Sorted list of positions where structural characters appear.
    pub indices: Vec<u32>,
}

impl StructuralIndex {
    /// Create a new empty structural index.
    pub fn new() -> (r: StructuralIndex)
        ensures
            r.indices@ == Seq::<u32>::empty(),
    {
        StructuralIndex { indices: Vec::new() }
    }

    /// Create a structural index with pre-allocated room.
    pub fn with_capacity(capacity: usize) -> (r: StructuralIndex)
        ensures
            r.indices@ == Seq::<u32>::empty(),
    {
        let mut indices: Vec<u32> = Vec::new();
        indices.reserve(capacity);
        StructuralIndex { indices }
    }

    /// The number of structural positions found.
    pub fn len(&self) -> (r: usize)
        ensures
            r == self.indices@.len(),
    {
        self.indices.len()
    }

    /// Whether the index holds no position.
    pub fn is_empty(&self) -> (r: bool)
        ensures
            r == (self.indices@.len() == 0),
    {
        self.indices.len() == 0
    }

    /// The position at the given rank, if the rank is in range.
    pub fn get(&self, idx: usize) -> (r: Option<u32>)
        ensures
            idx < self.indices@.len() ==> r == Some(self.indices@[idx as int]),
            idx >= self.indices@.len() ==> r is None,
    {
        if idx < self.indices.len() {
            Some(self.indices[idx])
        } else {
            None
        }
    }

    /// Add a position at the end of the index.
    pub fn push(&mut self, pos: u32)
        ensures
            final(self).indices@ == old(self).indices@.push(pos),
    {
        self.indices.push(pos);
    }

    /// Clear the index for reuse.
    pub fn clear(&mut self)
        ensures
            final(self).indices@ == Seq::<u32>::empty(),
    {
        self.indices.clear();
    }
}

impl Default for StructuralIndex {
    fn default() -> (r: StructuralIndex)
        ensures
            r.indices@ == Seq::<u32>::empty(),
    {
        StructuralIndex::new()
    }
}

/// Build the structural index of the input: stage one of the two-stage
/// decoder. This scalar scan is the reference; an accelerated scan must
/// produce the same index.
pub fn build_structural_index(input: &[u8]) -> (r: StructuralIndex)
    requires
        input@.len() <= u32::MAX,
    ensures
        r.indices@ == structural_positions(input@),
{
    let estimated_capacity = input.len() / 8;
    let mut index = StructuralIndex::with_capacity(estimated_capacity);
    scan_structural_scalar(input, &mut index.indices);
    index
}

} // verus!
