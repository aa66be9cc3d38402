//! Reading a board through a list of its available, or of its occupied,
//! cells: what lies between two entries of such a list.
use crate::mask::{listed, lists_positions};
use vstd::prelude::*;

verus! {

/// The cell at which entry `i` of a list stands; the end of the board, once
/// the list is used up.
pub open spec fn bound_at(list: Seq<usize>, i: int, cells: int) -> int {
    if i < list.len() {
        list[i] as int
    } else {
        cells
    }
}

/// The first cell that entry `i` of a list has not passed.
pub open spec fn resume_at(list: Seq<usize>, i: int) -> int {
    if i <= 0 {
        0
    } else {
        list[i - 1] + 1
    }
}

/// Between two neighbouring entries of a list of positions, no cell holds
/// the wanted value.
pub proof fn lemma_gap(list: Seq<usize>, bits: Seq<bool>, wanted: bool, i: int, c: int)
    requires
        lists_positions(list, bits, wanted),
        0 <= i <= list.len(),
        resume_at(list, i) <= c < bound_at(list, i, bits.len() as int),
    ensures
        0 <= c < bits.len(),
        bits[c] != wanted,
{
    if i < list.len() {
        assert(list[i] < bits.len());
    }
    if bits[c] == wanted {
        assert(listed(list, c));
        let j = choose|j: int| 0 <= j < list.len() && #[trigger] list[j] == c;
        if j < i {
            if j < i - 1 {
                assert(list[j] < list[i - 1]);
            }
        } else {
            if i < j {
                assert(list[i] < list[j]);
            }
        }
    }
}

/// The entries of a list of positions are in step with the cells: entry
/// `i` resumes at or before the cell it stands at.
pub proof fn lemma_bounds_ordered(list: Seq<usize>, bits: Seq<bool>, wanted: bool, i: int)
    requires
        lists_positions(list, bits, wanted),
        0 <= i <= list.len(),
    ensures
        0 <= resume_at(list, i) <= bound_at(list, i, bits.len() as int) <= bits.len(),
{
    if i > 0 {
        assert(list[i - 1] < bits.len());
        if i < list.len() {
            assert(list[i - 1] < list[i]);
        }
    }
    if i < list.len() {
        assert(list[i] < bits.len());
    }
}

/// The positions below `upto` at which `bits` holds `wanted`, lowest
/// first.
pub open spec fn positions_upto(bits: Seq<bool>, wanted: bool, upto: int) -> Seq<usize>
    decreases upto,
{
    if upto <= 0 {
        Seq::empty()
    } else {
        let rest = positions_upto(bits, wanted, upto - 1);
        if bits[upto - 1] == wanted {
            rest.push((upto - 1) as usize)
        } else {
            rest
        }
    }
}

/// All positions at which `bits` holds `wanted`, lowest first.
pub open spec fn positions(bits: Seq<bool>, wanted: bool) -> Seq<usize> {
    positions_upto(bits, wanted, bits.len() as int)
}

/// Positions that do not hold the wanted value add nothing.
pub proof fn lemma_positions_skip(bits: Seq<bool>, wanted: bool, lo: int, hi: int)
    requires
        0 <= lo <= hi,
        forall|c: int| lo <= c < hi ==> #[trigger] bits[c] != wanted,
    ensures
        positions_upto(bits, wanted, hi) == positions_upto(bits, wanted, lo),
    decreases hi - lo,
{
    if lo < hi {
        lemma_positions_skip(bits, wanted, lo, hi - 1);
        assert(bits[hi - 1] != wanted);
    }
}

/// Below the cell at which entry `i` stands, the positions are the first
/// `i` entries of the list.
pub proof fn lemma_positions_prefix(list: Seq<usize>, bits: Seq<bool>, wanted: bool, i: int)
    requires
        lists_positions(list, bits, wanted),
        bits.len() <= usize::MAX,
        0 <= i <= list.len(),
    ensures
        positions_upto(bits, wanted, bound_at(list, i, bits.len() as int)) == list.take(i),
    decreases i,
{
    lemma_bounds_ordered(list, bits, wanted, i);
    assert forall|c: int| resume_at(list, i) <= c < bound_at(list, i, bits.len() as int) implies #[trigger] bits[c]
        != wanted by {
        lemma_gap(list, bits, wanted, i, c);
    }
    lemma_positions_skip(bits, wanted, resume_at(list, i), bound_at(list, i, bits.len() as int));
    if i > 0 {
        lemma_positions_prefix(list, bits, wanted, i - 1);
        let at = list[i - 1] as int;
        assert(at < bits.len() && bits[at] == wanted);
        assert(bound_at(list, i - 1, bits.len() as int) == at);
        assert(list.take(i) =~= list.take(i - 1).push(list[i - 1]));
    } else {
        assert(list.take(0) =~= Seq::<usize>::empty());
    }
}

/// A list of positions is the list of positions: nothing else is in
/// ascending order, holds only wanted positions and misses none.
pub proof fn lemma_positions_unique(list: Seq<usize>, bits: Seq<bool>, wanted: bool)
    requires
        lists_positions(list, bits, wanted),
        bits.len() <= usize::MAX,
    ensures
        list == positions(bits, wanted),
{
    lemma_positions_prefix(list, bits, wanted, list.len() as int);
    assert(list.take(list.len() as int) =~= list);
}

/// What the positions below `upto` hold: only wanted positions, in
/// ascending order, and all of them.
pub proof fn lemma_positions_listed_upto(bits: Seq<bool>, wanted: bool, upto: int)
    requires
        0 <= upto <= bits.len() <= usize::MAX,
    ensures
        forall|k: int|
            0 <= k < positions_upto(bits, wanted, upto).len() ==> (#[trigger] positions_upto(
                bits,
                wanted,
                upto,
            )[k]) < upto && bits[positions_upto(bits, wanted, upto)[k] as int] == wanted,
        forall|j: int, k: int|
            0 <= j < k < positions_upto(bits, wanted, upto).len() ==> positions_upto(bits, wanted, upto)[j]
                < positions_upto(bits, wanted, upto)[k],
        forall|c: int|
            0 <= c < upto && #[trigger] bits[c] == wanted ==> listed(positions_upto(bits, wanted, upto), c),
    decreases upto,
{
    if upto > 0 {
        lemma_positions_listed_upto(bits, wanted, upto - 1);
        let rest = positions_upto(bits, wanted, upto - 1);
        let all = positions_upto(bits, wanted, upto);
        assert forall|c: int| 0 <= c < upto && #[trigger] bits[c] == wanted implies listed(all, c) by {
            if c < upto - 1 {
                assert(listed(rest, c));
                let k = choose|k: int| 0 <= k < rest.len() && #[trigger] rest[k] == c;
                assert(all[k] == c);
            } else {
                assert(all[rest.len() as int] == c);
            }
        }
    }
}

/// The positions are a list of positions.
pub proof fn lemma_positions_listed(bits: Seq<bool>, wanted: bool)
    requires
        bits.len() <= usize::MAX,
    ensures
        lists_positions(positions(bits, wanted), bits, wanted),
{
    lemma_positions_listed_upto(bits, wanted, bits.len() as int);
}

} // verus!
