//! The seven pieces and the random bag they are dealt from.

use std::collections::VecDeque;
use vstd::prelude::*;

use crate::block_kind::{I, J, L, O, S, T, Z};
use crate::random::shuffle;

verus! {

broadcast use vstd::seq_lib::group_to_multiset_ensures;

/// The colour of a cell (see `block_kind`).
pub type BlockColor = usize;

/// A piece fits in a square of this side.
pub const BLOCK_SIZE: usize = 4;

/// A piece: `shape[y][x]` is the colour of its cell in row `y`, column `x`.
pub type BlockShape = [[usize; 4]; 4];

/// The seven pieces in their starting orientation: I, O, S, Z, J, L, T.
pub const BLOCKS: [BlockShape; 7] = [
    [[0, 0, 0, 0], [0, 0, 0, 0], [I, I, I, I], [0, 0, 0, 0]],
    [[0, 0, 0, 0], [0, O, O, 0], [0, O, O, 0], [0, 0, 0, 0]],
    [[0, 0, 0, 0], [0, S, S, 0], [S, S, 0, 0], [0, 0, 0, 0]],
    [[0, 0, 0, 0], [Z, Z, 0, 0], [0, Z, Z, 0], [0, 0, 0, 0]],
    [[0, 0, 0, 0], [J, 0, 0, 0], [J, J, J, 0], [0, 0, 0, 0]],
    [[0, 0, 0, 0], [0, 0, L, 0], [L, L, L, 0], [0, 0, 0, 0]],
    [[0, 0, 0, 0], [0, T, 0, 0], [T, T, T, 0], [0, 0, 0, 0]],
];

/// A bag: the seven pieces, each once, in some order.
pub open spec fn is_bag(s: Seq<BlockShape>) -> bool {
    &&& s.len() == 7
    &&& forall|k: int| 0 <= k < 7 ==> s.contains(#[trigger] BLOCKS[k])
}

/// An order of the seven pieces: each of the numbers 0 to 6, and nothing else.
pub open spec fn is_order(kinds: Seq<usize>) -> bool {
    &&& kinds.len() == 7
    &&& forall|i: int| 0 <= i < 7 ==> #[trigger] kinds[i] < 7
    &&& forall|k: usize| k < 7 ==> #[trigger] kinds.contains(k)
}

/// The pieces named by `kinds`, in that order: piece `kinds[i]` of `BLOCKS` comes `i`-th.
pub fn bag_of(kinds: &Vec<usize>) -> (bag: VecDeque<BlockShape>)
    requires
        kinds@.len() == 7,
        forall|i: int| 0 <= i < 7 ==> #[trigger] kinds@[i] < 7,
    ensures
        bag@.len() == 7,
        forall|i: int| 0 <= i < 7 ==> #[trigger] bag@[i] == BLOCKS[kinds@[i] as int],
        is_order(kinds@) ==> is_bag(bag@),
{
    let mut bag: VecDeque<BlockShape> = VecDeque::new();
    let mut i: usize = 0;
    while i < kinds.len()
        invariant
            kinds@.len() == 7,
            i <= 7,
            bag@.len() == i,
            forall|j: int| 0 <= j < 7 ==> #[trigger] kinds@[j] < 7,
            forall|j: int| 0 <= j < i ==> #[trigger] bag@[j] == BLOCKS[kinds@[j] as int],
        decreases 7 - i,
    {
        let k = kinds[i];
        bag.push_back(BLOCKS[k]);
        i += 1;
    }
    proof {
        if is_order(kinds@) {
            assert forall|k: int| 0 <= k < 7 implies bag@.contains(#[trigger] BLOCKS[k]) by {
                assert(kinds@.contains(k as usize));
                let j = choose|j: int| 0 <= j < 7 && kinds@[j] == k as usize;
                assert(bag@[j] == BLOCKS[k]);
            }
        }
    }
    bag
}

/// Deals a new bag: the numbers 0 to 6 shuffled, then the pieces they name (see `bag_of`).
pub fn gen_block() -> (bag: VecDeque<BlockShape>)
    ensures
        is_bag(bag@),
{
    let mut kinds: Vec<usize> = vec![0, 1, 2, 3, 4, 5, 6];
    let ghost before = kinds@;
    shuffle(&mut kinds);
    proof {
        assert(before.len() == 7);
        assert(kinds@.len() == kinds@.to_multiset().len());
        assert forall|i: int| 0 <= i < 7 implies #[trigger] kinds@[i] < 7 by {
            assert(kinds@.contains(kinds@[i]));
            assert(before.to_multiset().count(kinds@[i]) > 0);
        }
        assert forall|k: usize| k < 7 implies #[trigger] kinds@.contains(k) by {
            assert(before[k as int] == k);
            assert(before.contains(k));
            assert(before.to_multiset().count(k) > 0);
            assert(kinds@.to_multiset().count(k) > 0);
        }
    }
    bag_of(&kinds)
}

} // verus!
