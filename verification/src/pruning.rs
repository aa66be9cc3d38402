//! Why pruning does not change the result: the score of the alpha-beta
//! search bounds the value of the exhaustive search on the side on which it
//! leaves the window, and equals it inside.
use crate::board::Board;
use crate::eval::{lemma_evaluation_bounded, INFINITY};
use crate::mask::lists_positions;
use crate::scan::{bound_at, lemma_bounds_ordered, lemma_gap, resume_at};
use crate::search::{bounds_value, spec_larger, spec_smaller};
use crate::state::lemma_place_wf;
use vstd::prelude::*;

verus! {

/// The position after a move of the player whose turn it is is a
/// well-formed board of the same size.
pub proof fn lemma_reply_wf(b: Board, maximizing: bool, c: int)
    requires
        b.wf(),
        b.in_range(c),
    ensures
        b.place(c, b.mover(maximizing)).wf(),
        b.place(c, b.mover(maximizing)).cells() == b.cells(),
{
    lemma_place_wf(b, c, b.mover(maximizing));
}

/// No value of the exhaustive search leaves the full window.
pub proof fn lemma_exhaustive_bounded(b: Board, depth: nat, maximizing: bool, upto: int)
    requires
        b.wf(),
        upto <= b.cells(),
    ensures
        -INFINITY <= b.exhaustive_upto(depth, maximizing, upto) <= INFINITY,
    decreases depth, upto,
{
    lemma_evaluation_bounded(b);
    if depth > 0 && upto > 0 {
        lemma_exhaustive_bounded(b, depth, maximizing, upto - 1);
        let c = upto - 1;
        if b.available[c] {
            lemma_reply_wf(b, maximizing, c);
            let child = b.place(c, b.mover(maximizing));
            lemma_exhaustive_bounded(child, (depth - 1) as nat, !maximizing, b.cells());
            assert(b.reply_value(depth, maximizing, c) == child.exhaustive_upto(
                (depth - 1) as nat,
                !maximizing,
                b.cells(),
            ));
        }
    }
}

/// Trying more cells can only help the mover.
pub proof fn lemma_exhaustive_monotone(b: Board, depth: nat, maximizing: bool, lo: int, hi: int)
    requires
        depth > 0,
        0 <= lo <= hi,
    ensures
        maximizing ==> b.exhaustive_upto(depth, maximizing, lo) <= b.exhaustive_upto(depth, maximizing, hi),
        !maximizing ==> b.exhaustive_upto(depth, maximizing, lo) >= b.exhaustive_upto(
            depth,
            maximizing,
            hi,
        ),
    decreases hi - lo,
{
    if lo < hi {
        lemma_exhaustive_monotone(b, depth, maximizing, lo, hi - 1);
    }
}

/// No score of the pruning search leaves the full window.
pub proof fn lemma_alphabeta_bounded(b: Board, depth: nat, alpha: int, beta: int, maximizing: bool)
    requires
        b.wf(),
    ensures
        -INFINITY <= b.alphabeta(depth, alpha, beta, maximizing) <= INFINITY,
    decreases depth, 2int, 0int,
{
    lemma_evaluation_bounded(b);
    if depth > 0 {
        lemma_pruned_bounded(b, depth, alpha, beta, maximizing, 0, Board::worst_for(maximizing));
    }
}

/// Nor does the rest of a ply that was taken up with a best score inside
/// it.
pub proof fn lemma_pruned_bounded(
    b: Board,
    depth: nat,
    alpha: int,
    beta: int,
    maximizing: bool,
    from: int,
    best: int,
)
    requires
        b.wf(),
        -INFINITY <= best <= INFINITY,
    ensures
        -INFINITY <= b.pruned_from(depth, alpha, beta, maximizing, from, best) <= INFINITY,
    decreases depth, 1int, b.cells() - from,
{
    if depth == 0 || from < 0 || from >= b.cells() {
    } else if !b.available[from] {
        lemma_pruned_bounded(b, depth, alpha, beta, maximizing, from + 1, best);
    } else {
        lemma_reply_wf(b, maximizing, from);
        let child = b.place(from, b.mover(maximizing));
        lemma_alphabeta_bounded(child, (depth - 1) as nat, alpha, beta, !maximizing);
        let score = child.alphabeta((depth - 1) as nat, alpha, beta, !maximizing);
        if maximizing {
            let raised = spec_larger(alpha, score);
            if beta > raised {
                lemma_pruned_bounded(b, depth, raised, beta, maximizing, from + 1, spec_larger(best, score));
            }
        } else {
            let lowered = spec_smaller(beta, score);
            if lowered > alpha {
                lemma_pruned_bounded(b, depth, alpha, lowered, maximizing, from + 1, spec_smaller(best, score));
            }
        }
    }
}

/// Cells that are not available do not change a pruning search.
pub proof fn lemma_pruned_skip(
    b: Board,
    depth: nat,
    alpha: int,
    beta: int,
    maximizing: bool,
    lo: int,
    hi: int,
    best: int,
)
    requires
        0 <= lo <= hi <= b.cells(),
        forall|c: int| lo <= c < hi ==> !(#[trigger] b.available[c]),
    ensures
        b.pruned_from(depth, alpha, beta, maximizing, lo, best) == b.pruned_from(
            depth,
            alpha,
            beta,
            maximizing,
            hi,
            best,
        ),
    decreases hi - lo,
{
    if lo < hi {
        assert(!b.available[lo]);
        lemma_pruned_skip(b, depth, alpha, beta, maximizing, lo + 1, hi, best);
    }
}

/// From where entry `i` of the list of available cells resumes to where
/// it stands, a pruning search does nothing.
pub proof fn lemma_pruned_resume(
    b: Board,
    depth: nat,
    alpha: int,
    beta: int,
    maximizing: bool,
    cells: Seq<usize>,
    i: int,
    best: int,
)
    requires
        b.wf(),
        lists_positions(cells, b.available, true),
        0 <= i <= cells.len(),
    ensures
        b.pruned_from(depth, alpha, beta, maximizing, resume_at(cells, i), best) == b.pruned_from(
            depth,
            alpha,
            beta,
            maximizing,
            bound_at(cells, i, b.cells()),
            best,
        ),
{
    lemma_bounds_ordered(cells, b.available, true, i);
    assert forall|c: int|
        resume_at(cells, i) <= c < bound_at(cells, i, b.cells()) implies !(#[trigger] b.available[c]) by {
        lemma_gap(cells, b.available, true, i, c);
    }
    lemma_pruned_skip(
        b,
        depth,
        alpha,
        beta,
        maximizing,
        resume_at(cells, i),
        bound_at(cells, i, b.cells()),
        best,
    );
}

/// What a maximizing ply knows after the cells below `from`: the raised
/// lower bound is the larger of `alpha` and the best score, the window is
/// still open, and the best score stands to the value of the cells tried as
/// a returned score would.
pub open spec fn raised_window(alpha: int, beta: int, raised: int, best: int, tried: int) -> bool {
    &&& raised == spec_larger(alpha, best)
    &&& raised < beta
    &&& best <= alpha ==> tried <= best
    &&& best > alpha ==> tried == best
}

/// The same for a minimizing ply.
pub open spec fn lowered_window(alpha: int, beta: int, lowered: int, best: int, tried: int) -> bool {
    &&& lowered == spec_smaller(beta, best)
    &&& alpha < lowered
    &&& best >= beta ==> tried >= best
    &&& best < beta ==> tried == best
}

/// The score of the pruning search bounds the value of the exhaustive
/// search as `bounds_value` says.
pub proof fn lemma_alphabeta_sound(b: Board, depth: nat, alpha: int, beta: int, maximizing: bool)
    requires
        b.wf(),
        -INFINITY <= alpha < beta <= INFINITY,
    ensures
        bounds_value(
            alpha,
            beta,
            b.alphabeta(depth, alpha, beta, maximizing),
            b.minimax_value(depth, maximizing),
        ),
    decreases depth, 2int, 0int,
{
    if depth > 0 {
        if maximizing {
            lemma_raised_sound(b, depth, alpha, beta, 0, alpha, -INFINITY);
        } else {
            lemma_lowered_sound(b, depth, alpha, beta, 0, beta, INFINITY as int);
        }
    }
}

/// The rest of a maximizing ply, taken up with a window that the cells
/// before it have raised as `raised_window` says.
pub proof fn lemma_raised_sound(b: Board, depth: nat, alpha: int, beta: int, from: int, raised: int, best: int)
    requires
        b.wf(),
        depth > 0,
        -INFINITY <= alpha < beta <= INFINITY,
        0 <= from <= b.cells(),
        raised_window(alpha, beta, raised, best, b.exhaustive_upto(depth, true, from)),
    ensures
        bounds_value(
            alpha,
            beta,
            b.pruned_from(depth, raised, beta, true, from, best),
            b.minimax_value(depth, true),
        ),
    decreases depth, 1int, b.cells() - from,
{
    if from >= b.cells() {
    } else if !b.available[from] {
        lemma_raised_sound(b, depth, alpha, beta, from + 1, raised, best);
    } else {
        lemma_reply_wf(b, true, from);
        let child = b.place(from, b.mover(true));
        lemma_alphabeta_sound(child, (depth - 1) as nat, raised, beta, false);
        let score = child.alphabeta((depth - 1) as nat, raised, beta, false);
        let reply = b.reply_value(depth, true, from);
        assert(reply == child.minimax_value((depth - 1) as nat, false));
        let further = spec_larger(raised, score);
        if beta <= further {
            lemma_exhaustive_monotone(b, depth, true, from + 1, b.cells());
        } else {
            lemma_raised_sound(b, depth, alpha, beta, from + 1, further, spec_larger(best, score));
        }
    }
}

/// The rest of a minimizing ply, taken up with a window that the cells
/// before it have lowered as `lowered_window` says.
pub proof fn lemma_lowered_sound(b: Board, depth: nat, alpha: int, beta: int, from: int, lowered: int, best: int)
    requires
        b.wf(),
        depth > 0,
        -INFINITY <= alpha < beta <= INFINITY,
        0 <= from <= b.cells(),
        lowered_window(alpha, beta, lowered, best, b.exhaustive_upto(depth, false, from)),
    ensures
        bounds_value(
            alpha,
            beta,
            b.pruned_from(depth, alpha, lowered, false, from, best),
            b.minimax_value(depth, false),
        ),
    decreases depth, 1int, b.cells() - from,
{
    if from >= b.cells() {
    } else if !b.available[from] {
        lemma_lowered_sound(b, depth, alpha, beta, from + 1, lowered, best);
    } else {
        lemma_reply_wf(b, false, from);
        let child = b.place(from, b.mover(false));
        lemma_alphabeta_sound(child, (depth - 1) as nat, alpha, lowered, true);
        let score = child.alphabeta((depth - 1) as nat, alpha, lowered, true);
        let reply = b.reply_value(depth, false, from);
        assert(reply == child.minimax_value((depth - 1) as nat, true));
        let further = spec_smaller(lowered, score);
        if further <= alpha {
            lemma_exhaustive_monotone(b, depth, false, from + 1, b.cells());
        } else {
            lemma_lowered_sound(b, depth, alpha, beta, from + 1, further, spec_smaller(best, score));
        }
    }
}

/// For any position and depth, the pruning search with the full window
/// returns the score of the exhaustive search.
pub proof fn lemma_alpha_beta_equivalence(b: Board, depth: nat, maximizing: bool)
    requires
        b.wf(),
    ensures
        b.alphabeta(depth, -INFINITY, INFINITY as int, maximizing) == b.minimax_value(depth, maximizing),
{
    lemma_alphabeta_sound(b, depth, -INFINITY, INFINITY as int, maximizing);
    lemma_alphabeta_bounded(b, depth, -INFINITY, INFINITY as int, maximizing);
    lemma_exhaustive_bounded(b, depth, maximizing, b.cells());
}

/// The value of a maximizing ply is an upper bound of the reply values of
/// the cells tried, and one of them unless it is the starting score.
pub proof fn lemma_exhaustive_is_best(b: Board, depth: nat, upto: int)
    requires
        depth > 0,
        0 <= upto,
    ensures
        forall|c: int|
            0 <= c < upto && b.available[c] ==> #[trigger] b.reply_value(depth, true, c) <= b.exhaustive_upto(
                depth,
                true,
                upto,
            ),
        b.exhaustive_upto(depth, true, upto) == -INFINITY || exists|c: int|
            0 <= c < upto && b.available[c] && #[trigger] b.reply_value(depth, true, c) == b.exhaustive_upto(
                depth,
                true,
                upto,
            ),
    decreases upto,
{
    if upto > 0 {
        lemma_exhaustive_is_best(b, depth, upto - 1);
        let rest = b.exhaustive_upto(depth, true, upto - 1);
        let c = upto - 1;
        if b.available[c] {
            let reply = b.reply_value(depth, true, c);
            if reply >= rest {
                assert(b.reply_value(depth, true, c) == b.exhaustive_upto(depth, true, upto));
            } else if rest != -INFINITY {
                let w = choose|w: int|
                    0 <= w < upto - 1 && b.available[w] && #[trigger] b.reply_value(depth, true, w) == rest;
                assert(b.reply_value(depth, true, w) == b.exhaustive_upto(depth, true, upto));
            }
        } else if rest != -INFINITY {
            let w = choose|w: int|
                0 <= w < upto - 1 && b.available[w] && #[trigger] b.reply_value(depth, true, w) == rest;
            assert(b.reply_value(depth, true, w) == b.exhaustive_upto(depth, true, upto));
        }
    }
}

} // verus!
