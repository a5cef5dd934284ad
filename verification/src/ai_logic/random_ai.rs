use vstd::prelude::*;
use crate::bits::{
    bit, count_below, is_set, is_square, lemma_count_bounds, lemma_is_set, popcount, square_bit,
    test_bit,
};
use rand::Rng;

verus! {

/// Draws an index below `n` from rand's `thread_rng().gen_range(0..n)`,
/// which panics on an empty range and otherwise returns a value of the
/// range. Which value is left open.
#[verifier::external_body]
fn random_below(n: usize) -> (r: usize)
    requires
        n > 0,
    ensures
        r < n,
{
    rand::thread_rng().gen_range(0..n)
}

/// The squares set in `possible_moves`, lowest first.
pub fn move_positions(possible_moves: u64) -> (positions: Vec<usize>)
    ensures
        positions.len() == popcount(possible_moves),
        forall|k: int|
            0 <= k < positions.len() ==> is_set(possible_moves, #[trigger] positions[k] as int),
        forall|i: int|
            is_set(possible_moves, i) ==> exists|k: int|
                0 <= k < positions.len() && #[trigger] positions[k] == i,
        forall|j: int, k: int|
            0 <= j < k < positions.len() ==> (#[trigger] positions[j]) < (#[trigger] positions[k]),
{
    let mut positions: Vec<usize> = Vec::new();
    let mut index: usize = 0;
    while index < 64
        invariant
            0 <= index <= 64,
            positions.len() == count_below(possible_moves, index as int),
            forall|k: int|
                0 <= k < positions.len() ==> (#[trigger] positions[k]) < index && is_set(
                    possible_moves,
                    positions[k] as int,
                ),
            forall|i: int|
                0 <= i < index && is_set(possible_moves, i) ==> exists|k: int|
                    0 <= k < positions.len() && #[trigger] positions[k] == i,
            forall|j: int, k: int|
                0 <= j < k < positions.len() ==> (#[trigger] positions[j]) < (
                #[trigger] positions[k]),
        decreases 64 - index,
    {
        proof {
            lemma_count_bounds(possible_moves, index as int);
        }
        if test_bit(possible_moves, index as u64) {
            let ghost before = positions@;
            positions.push(index);
            assert forall|i: int| 0 <= i < index + 1 && is_set(possible_moves, i) implies exists|
                k: int,
            |
                0 <= k < positions.len() && #[trigger] positions[k] == i by {
                if i < index {
                    let k = choose|k: int| 0 <= k < before.len() && #[trigger] before[k] == i;
                    assert(positions[k] == i);
                } else {
                    assert(positions[before.len() as int] == i);
                }
            }
        }
        index += 1;
    }
    positions
}

/// The mask of the move that stands at `index` in `positions`.
pub fn move_at(positions: &Vec<usize>, index: usize) -> (selected: u64)
    requires
        index < positions.len(),
        positions[index as int] < 64,
    ensures
        selected == bit(positions[index as int] as int),
        is_square(selected),
{
    square_bit(positions[index] as u64)
}

/// One of the moves in `possible_moves`, chosen at random; 0, no move,
/// where the mask is empty.
pub fn get_random_move(possible_moves: u64) -> (selected: u64)
    ensures
        popcount(possible_moves) == 0 ==> selected == 0,
        possible_moves == 0 ==> selected == 0,
        popcount(possible_moves) > 0 ==> exists|i: int|
            is_set(possible_moves, i) && selected == #[trigger] bit(i),
        is_square(possible_moves) ==> selected == possible_moves,
{
    let positions = move_positions(possible_moves);
    proof {
        assert forall|j: int| !is_set(0, j) by {
            lemma_is_set(0, 0, 0, j);
        }
        if possible_moves == 0 && positions.len() > 0 {
            assert(is_set(possible_moves, positions[0] as int));
        }
        if is_square(possible_moves) {
            let i = choose|i: int| 0 <= i < 64 && possible_moves == #[trigger] bit(i);
            lemma_is_set(0, 0, i, i);
            assert(is_set(possible_moves, i));
            assert forall|k: int| 0 <= k < positions.len() implies #[trigger] positions[k]
                == i by {
                lemma_is_set(0, 0, i, positions[k] as int);
            }
        }
    }
    if positions.len() == 0 {
        return 0;
    }
    let random_index = random_below(positions.len());
    assert(is_set(possible_moves, positions[random_index as int] as int));
    move_at(&positions, random_index)
}

} // verus!
