//! Static evaluation of a position: a win check first, then edge coverage,
//! connectivity and centre control of each player's stones.
use crate::board::{Board, MAX_NEIGHBORS};
use crate::coords::{lemma_cell_round_trip, lemma_triangle_bounded, Coordinates, MAX_CELLS};
use crate::mask::lists_positions;
use crate::scan::{bound_at, lemma_bounds_ordered, lemma_gap, lemma_positions_listed, resume_at};
use crate::state::MinimaxState;
use crate::walks::{has_flag, lemma_flags_union};
use vstd::prelude::*;

verus! {

/// Score of a position that the engine has won.
pub const WIN_SCORE: i32 = 100_000;

/// Score of a position that the opponent has won.
pub const LOSE_SCORE: i32 = -WIN_SCORE;

/// Larger than any score; the search window starts at minus and plus this.
pub const INFINITY: i32 = 1_073_741_823;

/// Weight of one touched side.
pub const EDGE_WEIGHT: i32 = 5;

/// Weight of one link between two stones of a player.
pub const LINK_WEIGHT: i32 = 25;

/// Bonus for a stone with two or more neighbours of its own player.
pub const STRONG_BONUS: i32 = 40;

/// What a stone on the centroid would add to centre control.
pub const CENTER_BASE: i32 = 50;

/// Weight of centre control on an empty board.
pub const CENTER_WEIGHT: i32 = 5;

/// The largest distance of a cell from the centroid: twice the largest
/// coordinate.
pub const MAX_OFF_CENTER: i32 = 510;

/// The least that a stone adds to centre control: `CENTER_BASE` less
/// `MAX_OFF_CENTER`.
pub const LEAST_CENTER: i32 = -460;

/// Sums over the stones of one player among the cells below some bound,
/// with the number of stones of either player there.
pub struct Tally {
    /// Sum, over the player's stones, of the neighbours of the same player.
    pub links: int,
    /// Number of the player's stones with two or more such neighbours.
    pub strong: int,
    /// Sum, over the player's stones, of `CENTER_BASE` less the distance
    /// from the centroid.
    pub center: int,
    /// Number of occupied cells.
    pub stones: int,
}

/// Division that rounds toward zero.
pub open spec fn div_toward_zero(a: int, d: int) -> int {
    if a >= 0 {
        a / d
    } else {
        -((-a) / d)
    }
}

/// `|a - b|`.
pub open spec fn spec_distance(a: u32, b: u32) -> int {
    if a >= b {
        a - b
    } else {
        b - a
    }
}

/// Number of sides among the flags.
pub open spec fn spec_count_sides(flags: u8) -> int {
    let a: int = if has_flag(flags, 1) { 1 } else { 0 };
    let b: int = if has_flag(flags, 2) { 1 } else { 0 };
    let c: int = if has_flag(flags, 4) { 1 } else { 0 };
    a + b + c
}

impl Board {
    /// Cell `c` holds a stone of `player`.
    pub open spec fn holds(self, player: u8, c: int) -> bool {
        !self.available[c] && self.owner[c] == player
    }

    /// Among the first `upto` neighbours of `c`, the number that `player`
    /// owns.
    pub open spec fn friends_upto(self, player: u8, c: int, upto: int) -> int
        decreases upto,
    {
        if upto <= 0 {
            0
        } else {
            self.friends_upto(player, c, upto - 1) + if self.owner[self.neighbors[c][upto - 1] as int]
                == player { 1int } else { 0 }
        }
    }

    /// Number of neighbours of `c` that `player` owns.
    pub open spec fn friends(self, player: u8, c: int) -> int {
        self.friends_upto(player, c, self.neighbors[c].len() as int)
    }

    /// Distance of a cell from the centroid of the board:
    /// `|x - y| + |y - z| + |z - x|`.
    pub open spec fn off_center(self, c: int) -> int {
        let p = self.coords[c];
        spec_distance(p.x, p.y) + spec_distance(p.y, p.z) + spec_distance(p.z, p.x)
    }

    /// The sums over the cells below `upto`.
    pub open spec fn tally_upto(self, player: u8, upto: int) -> Tally
        decreases upto,
    {
        if upto <= 0 {
            Tally { links: 0, strong: 0, center: 0, stones: 0 }
        } else {
            let t = self.tally_upto(player, upto - 1);
            let c = upto - 1;
            if self.available[c] {
                t
            } else if self.owner[c] == player {
                Tally {
                    links: t.links + self.friends(player, c),
                    strong: t.strong + if self.friends(player, c) >= 2 { 1int } else { 0 },
                    center: t.center + CENTER_BASE - self.off_center(c),
                    stones: t.stones + 1,
                }
            } else {
                Tally { stones: t.stones + 1, ..t }
            }
        }
    }

    /// The sums over the whole board.
    pub open spec fn tally(self, player: u8) -> Tally {
        self.tally_upto(player, self.cells())
    }

    /// Some stone of `player` below `upto` touches the side `bit`.
    pub open spec fn touches_upto(self, player: u8, bit: u8, upto: int) -> bool {
        exists|c: int| 0 <= c < upto && #[trigger] self.holds(player, c) && has_flag(self.edges[c], bit)
    }

    /// Number of sides that stones of `player` touch.
    pub open spec fn sides_touched(self, player: u8) -> int {
        (if self.touches_upto(player, 1, self.cells()) { 1int } else { 0 }) + (if self.touches_upto(
            player,
            2,
            self.cells(),
        ) { 1int } else { 0 }) + (if self.touches_upto(player, 4, self.cells()) { 1int } else { 0 })
    }

    /// Edge coverage and connectivity of `player`: what does not depend on
    /// how full the board is.
    pub open spec fn structure_score(self, player: u8) -> int {
        STRONG_BONUS * self.tally(player).strong + EDGE_WEIGHT * self.sides_touched(player) + LINK_WEIGHT
            * self.tally(player).links
    }

    /// Centre control of `player`, scaled by the share of the board that is
    /// still empty and rounded toward zero.
    pub open spec fn center_score(self, player: u8) -> int {
        spec_scaled_center(self.tally(player).center, self.tally(player).stones, self.cells())
    }

    /// Strength of the position of `player`.
    pub open spec fn position_strength(self, player: u8) -> int {
        self.structure_score(player) + self.center_score(player)
    }

    /// Value of the position for the engine.
    pub open spec fn evaluation(self) -> int {
        if self.has_won(self.bot_id) {
            WIN_SCORE as int
        } else if self.has_won(self.human_id) {
            LOSE_SCORE as int
        } else {
            self.position_strength(self.bot_id) - self.position_strength(self.human_id)
        }
    }
}

/// `center * CENTER_WEIGHT * (cells - stones) / cells`, rounded toward zero;
/// 0 on a board without cells.
pub open spec fn spec_scaled_center(center: int, stones: int, cells: int) -> int {
    if cells <= 0 {
        0
    } else {
        div_toward_zero(center * CENTER_WEIGHT * (cells - stones), cells)
    }
}

/// The sums stay within what the number of cells allows.
pub open spec fn tally_bounded(t: Tally, upto: int) -> bool {
    &&& 0 <= t.stones <= upto
    &&& 0 <= t.links <= MAX_NEIGHBORS * t.stones
    &&& 0 <= t.strong <= t.stones
    &&& LEAST_CENTER * t.stones <= t.center <= CENTER_BASE * t.stones
}

/// A cell has no more neighbours of a player than neighbours.
pub proof fn lemma_friends_bounded(b: Board, player: u8, c: int, upto: int)
    requires
        0 <= upto,
    ensures
        0 <= b.friends_upto(player, c, upto) <= upto,
    decreases upto,
{
    if upto > 0 {
        lemma_friends_bounded(b, player, c, upto - 1);
    }
}

/// No cell of the board lies further from the centroid than
/// `MAX_OFF_CENTER`.
pub proof fn lemma_off_center_bounded(b: Board, c: int)
    requires
        b.wf(),
        b.in_range(c),
    ensures
        0 <= b.off_center(c) <= MAX_OFF_CENTER,
{
    lemma_cell_round_trip(c, b.size);
    assert(b.coords[c] == Coordinates::spec_from_index(c, b.size));
}

/// The sums over any part of the board are bounded by the stones counted.
pub proof fn lemma_tally_bounded(b: Board, player: u8, upto: int)
    requires
        b.wf(),
        0 <= upto <= b.cells(),
    ensures
        tally_bounded(b.tally_upto(player, upto), upto),
    decreases upto,
{
    if upto > 0 {
        lemma_tally_bounded(b, player, upto - 1);
        let c = upto - 1;
        lemma_friends_bounded(b, player, c, b.neighbors[c].len() as int);
        lemma_off_center_bounded(b, c);
        assert(b.neighbors[c].len() <= MAX_NEIGHBORS);
    }
}

/// Cells without a stone add nothing to the sums.
pub proof fn lemma_tally_skip(b: Board, player: u8, lo: int, hi: int)
    requires
        0 <= lo <= hi,
        forall|c: int| lo <= c < hi ==> #[trigger] b.available[c],
    ensures
        b.tally_upto(player, hi) == b.tally_upto(player, lo),
        forall|bit: u8| b.touches_upto(player, bit, hi) == b.touches_upto(player, bit, lo),
    decreases hi - lo,
{
    if lo < hi {
        lemma_tally_skip(b, player, lo, hi - 1);
        assert(b.available[hi - 1]);
        assert forall|bit: u8| b.touches_upto(player, bit, hi) == b.touches_upto(player, bit, hi - 1) by {
            if b.touches_upto(player, bit, hi) {
                let c = choose|c: int| 0 <= c < hi && #[trigger] b.holds(player, c) && has_flag(b.edges[c], bit);
                assert(c < hi - 1);
            }
            if b.touches_upto(player, bit, hi - 1) {
                let c = choose|c: int|
                    0 <= c < hi - 1 && #[trigger] b.holds(player, c) && has_flag(b.edges[c], bit);
                assert(b.holds(player, c));
            }
        }
    }
}

/// Going one cell further adds the sides of that cell, if `player` holds
/// it.
pub proof fn lemma_touches_step(b: Board, player: u8, bit: u8, c: int)
    requires
        0 <= c,
    ensures
        b.touches_upto(player, bit, c + 1) == (b.touches_upto(player, bit, c) || (b.holds(player, c)
            && has_flag(b.edges[c], bit))),
{
    if b.touches_upto(player, bit, c + 1) {
        let w = choose|w: int| 0 <= w < c + 1 && #[trigger] b.holds(player, w) && has_flag(b.edges[w], bit);
        if w < c {
            assert(b.holds(player, w));
        }
    }
    if b.touches_upto(player, bit, c) {
        let w = choose|w: int| 0 <= w < c && #[trigger] b.holds(player, w) && has_flag(b.edges[w], bit);
        assert(b.holds(player, w));
    }
    if b.holds(player, c) && has_flag(b.edges[c], bit) {
        assert(b.touches_upto(player, bit, c + 1));
    }
}

/// The strength of a position stays far inside the search window: a stone
/// adds at most 40 + 6 * 25 to the structure and between 5 * -460 and
/// 5 * 50 to the centre share, and the sides add at most 15.
pub proof fn lemma_strength_bounded(b: Board, player: u8)
    requires
        b.wf(),
    ensures
        -2300 * b.cells() <= b.position_strength(player) <= 440 * b.cells() + 15,
{
    let t = b.tally(player);
    let cells = b.cells();
    lemma_tally_bounded(b, player, cells);
    if cells > 0 {
        lemma_triangle_bounded(b.size);
        lemma_scaled_bounds(t.center, t.stones, cells);
    }
}

/// Bounds of the scaled centre control, and of the product it is rounded
/// from: 5 * -460 and 5 * 50 for each cell of the board, and that times the
/// largest number of cells for the product.
pub proof fn lemma_scaled_bounds(center: int, stones: int, cells: int)
    requires
        0 <= stones <= cells,
        0 < cells <= MAX_CELLS,
        LEAST_CENTER * stones <= center <= CENTER_BASE * stones,
    ensures
        -2300 * cells <= spec_scaled_center(center, stones, cells) <= 250 * cells,
        -2488937676800 <= center * CENTER_WEIGHT * (cells - stones) <= 270536704000,
{
    let free = cells - stones;
    let scaled = center * CENTER_WEIGHT * free;
    let sq = cells * cells;
    let least = LEAST_CENTER as int;
    let base = CENTER_BASE as int;
    assert(least * stones == 0 - 460 * stones && base * stones == 50 * stones) by (nonlinear_arith)
        requires
            least == 0 - 460,
            base == 50,
    ;
    assert(0 <= sq <= 1082146816) by (nonlinear_arith)
        requires
            sq == cells * cells,
            0 <= cells <= 32896,
    ;
    assert(0 - 2300 * sq <= scaled <= 250 * sq) by (nonlinear_arith)
        requires
            scaled == center * 5 * free,
            sq == cells * cells,
            0 <= free <= cells,
            0 <= stones <= cells,
            0 - 460 * stones <= center <= 50 * stones,
    ;
    if scaled >= 0 {
        assert(0 <= scaled / cells <= 250 * cells) by (nonlinear_arith)
            requires
                0 <= scaled <= 250 * sq,
                sq == cells * cells,
                cells > 0,
        ;
    } else {
        let pos = -scaled;
        assert(0 <= pos / cells <= 2300 * cells) by (nonlinear_arith)
            requires
                0 <= pos <= 2300 * sq,
                sq == cells * cells,
                cells > 0,
        ;
    }
}

/// Every evaluation lies strictly inside the search window.
pub proof fn lemma_evaluation_bounded(b: Board)
    requires
        b.wf(),
    ensures
        -INFINITY < b.evaluation() < INFINITY,
{
    lemma_strength_bounded(b, b.bot_id);
    lemma_strength_bounded(b, b.human_id);
    lemma_triangle_bounded(b.size);
}

fn distance(a: u32, b: u32) -> (d: i32)
    requires
        a <= 255,
        b <= 255,
    ensures
        d == spec_distance(a, b),
{
    if a >= b {
        (a - b) as i32
    } else {
        (b - a) as i32
    }
}

fn count_sides(flags: u8) -> (count: i32)
    ensures
        count == spec_count_sides(flags),
{
    let a: i32 = if flags & 1 != 0 { 1 } else { 0 };
    let b: i32 = if flags & 2 != 0 { 1 } else { 0 };
    let c: i32 = if flags & 4 != 0 { 1 } else { 0 };
    a + b + c
}

fn scaled_center(center: i32, stones: usize, cells: usize) -> (score: i32)
    requires
        stones <= cells <= MAX_CELLS,
        LEAST_CENTER * stones <= center <= CENTER_BASE * stones,
    ensures
        score == spec_scaled_center(center as int, stones as int, cells as int),
        -2300 * cells <= score <= 250 * cells,
{
    if cells == 0 {
        0
    } else {
        let free: i64 = (cells - stones) as i64;
        let weighted: i64 = center as i64 * CENTER_WEIGHT as i64;
        proof {
            lemma_scaled_bounds(center as int, stones as int, cells as int);
            assert(weighted * free == center * CENTER_WEIGHT * (cells - stones)) by (nonlinear_arith)
                requires
                    weighted == center * 5,
                    free == cells - stones,
            ;
        }
        let scaled: i64 = weighted * free;
        let total: i64 = cells as i64;
        (scaled / total) as i32
    }
}

/// Strength of the position of `player`: 40 for each stone with two or
/// more neighbours of its own, 5 for each side touched, 25 for each link,
/// and centre control scaled by the empty share of the board.
pub fn evaluate_position_strength(state: &MinimaxState, player: u8) -> (score: i32)
    requires
        state.wf(),
    ensures
        score == state@.position_strength(player),
{
    let ghost b = state@;
    let occupied = state.occupied_cells();
    let cells = state.total_cells();
    let mut score: i32 = 0;
    let mut edges_touched: u8 = 0;
    let mut total_connections: i32 = 0;
    let mut center_control: i32 = 0;

    proof {
        lemma_triangle_bounded(b.size);
        lemma_positions_listed(b.available, false);
        lemma_bounds_ordered(occupied@, b.available, false, 0);
        lemma_skip_to(b, player, occupied@, 0);
        assert(0u8 & 1 == 0 && 0u8 & 2 == 0 && 0u8 & 4 == 0) by (bit_vector);
    }
    let mut i: usize = 0;
    while i < occupied.len()
        invariant
            state@ == b,
            state.wf(),
            cells == b.cells(),
            cells <= MAX_CELLS,
            lists_positions(occupied@, b.available, false),
            0 <= i <= occupied.len(),
            ({
                let t = b.tally_upto(player, bound_at(occupied@, i as int, cells as int));
                &&& score == STRONG_BONUS * t.strong
                &&& total_connections == t.links
                &&& center_control == t.center
                &&& i == t.stones
                &&& tally_bounded(t, bound_at(occupied@, i as int, cells as int))
            }),
            0 <= bound_at(occupied@, i as int, cells as int) <= cells,
            edges_touched <= 7,
            forall|bit: u8|
                bit == 1 || bit == 2 || bit == 4 ==> has_flag(edges_touched, bit) == #[trigger] b.touches_upto(
                    player,
                    bit,
                    bound_at(occupied@, i as int, cells as int),
                ),
        decreases occupied.len() - i,
    {
        let idx = occupied[i];
        let ghost before = b.tally_upto(player, idx as int);
        proof {
            assert(idx < b.available.len() && !b.available[idx as int]);
            lemma_tally_bounded(b, player, idx as int + 1);
            lemma_bounds_ordered(occupied@, b.available, false, i as int + 1);
            lemma_skip_to(b, player, occupied@, i as int + 1);
            lemma_touches_step(b, player, 1, idx as int);
            lemma_touches_step(b, player, 2, idx as int);
            lemma_touches_step(b, player, 4, idx as int);
        }
        if state.owner_at(idx) == player {
            let ghost flags_before = edges_touched;
            edges_touched = edges_touched | state.edges_at(idx);
            proof {
                lemma_flags_union(flags_before, b.edges[idx as int]);
            }

            let around = state.neighbors_of(idx);
            let mut neighbors: i32 = 0;
            let mut k: usize = 0;
            while k < around.len()
                invariant
                    state@ == b,
                    state.wf(),
                    idx < b.cells(),
                    around@ == b.neighbors[idx as int],
                    around@.len() <= MAX_NEIGHBORS,
                    0 <= k <= around.len(),
                    neighbors == b.friends_upto(player, idx as int, k as int),
                    0 <= neighbors <= k,
                decreases around.len() - k,
            {
                if state.owner_at(around[k]) == player {
                    neighbors = neighbors + 1;
                }
                k = k + 1;
            }
            total_connections = total_connections + neighbors;

            if neighbors >= 2 {
                score = score + STRONG_BONUS;
            }
            let coords = state.coords_of(idx);
            proof {
                lemma_cell_round_trip(idx as int, b.size);
                lemma_off_center_bounded(b, idx as int);
            }
            let off_center = distance(coords.x(), coords.y()) + distance(coords.y(), coords.z()) + distance(
                coords.z(),
                coords.x(),
            );
            center_control = center_control + (CENTER_BASE - off_center);
        }
        i = i + 1;
    }

    let edges_count = count_sides(edges_touched);
    let pieces_on_board = occupied.len();

    let edge_score = edges_count * EDGE_WEIGHT;
    let connections_score = total_connections * LINK_WEIGHT;
    let center_score = scaled_center(center_control, pieces_on_board, cells);

    score = score + edge_score;
    score = score + connections_score;
    score = score + center_score;

    score
}

/// Value of the position for the engine: `WIN_SCORE` if the engine has
/// won, `LOSE_SCORE` if the opponent has, else the difference of the two
/// position strengths.
pub fn evaluate_state(state: &mut MinimaxState) -> (score: i32)
    requires
        old(state).wf(),
    ensures
        final(state).wf(),
        final(state)@ == old(state)@,
        score == old(state)@.evaluation(),
{
    let bot_id = state.bot_id();
    let human_id = state.human_id();
    if state.check_win(bot_id) {
        return WIN_SCORE;
    }
    if state.check_win(human_id) {
        return LOSE_SCORE;
    }
    proof {
        lemma_strength_bounded(state@, bot_id);
        lemma_strength_bounded(state@, human_id);
        lemma_triangle_bounded(state@.size);
    }
    let bot_score = evaluate_position_strength(state, bot_id);
    let human_score = evaluate_position_strength(state, human_id);

    bot_score - human_score
}

/// From where entry `i` of the list of occupied cells resumes to where it
/// stands, the sums do not change.
pub proof fn lemma_skip_to(b: Board, player: u8, occupied: Seq<usize>, i: int)
    requires
        b.wf(),
        lists_positions(occupied, b.available, false),
        0 <= i <= occupied.len(),
    ensures
        b.tally_upto(player, bound_at(occupied, i, b.cells())) == b.tally_upto(
            player,
            resume_at(occupied, i),
        ),
        forall|bit: u8|
            b.touches_upto(player, bit, bound_at(occupied, i, b.cells())) == b.touches_upto(
                player,
                bit,
                resume_at(occupied, i),
            ),
{
    lemma_bounds_ordered(occupied, b.available, false, i);
    assert forall|c: int|
        resume_at(occupied, i) <= c < bound_at(occupied, i, b.cells()) implies #[trigger] b.available[c] by {
        lemma_gap(occupied, b.available, false, i, c);
    }
    lemma_tally_skip(b, player, resume_at(occupied, i), bound_at(occupied, i, b.cells()));
}

} // verus!
