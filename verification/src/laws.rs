//! What holds of the engine as a whole: laws that tie several of its parts
//! together, each stated over the mathematical board and proved.
use crate::board::{nothing_blocked, Board, ALL_SIDES};
use crate::coords::Coordinates;
use crate::eval::{lemma_friends_bounded, Tally, CENTER_WEIGHT};
use crate::search::tactical_choice;
use crate::state::{lemma_lift_wf, lemma_place_wf};
use crate::walks::{
    has_flag, lemma_flags_value, lemma_reached_is_open, lemma_reaches_self, lemma_reaches_symmetric,
    lemma_reaches_transitive,
};
use vstd::prelude::*;

verus! {

/// A cell is available exactly when nobody owns it, and neither placing a
/// stone nor taking one back changes that.
pub proof fn lemma_owner_and_availability(b: Board, c: int, player: u8)
    requires
        b.wf(),
        b.in_range(c),
        player != 0,
    ensures
        forall|w: int| 0 <= w < b.cells() ==> b.available[w] == (b.owner[w] == 0),
        forall|w: int| 0 <= w < b.cells() ==> b.place(c, player).available[w] == (b.place(c, player).owner[w] == 0),
        forall|w: int| 0 <= w < b.cells() ==> b.lift(c).available[w] == (b.lift(c).owner[w] == 0),
{
    lemma_place_wf(b, c, player);
    lemma_lift_wf(b, c);
    assert(b.place(c, player).availability_matches_owner());
    assert(b.lift(c).availability_matches_owner());
}

/// On a board without stones nobody has won and the evaluation is 0.
pub proof fn lemma_empty_board_is_even(b: Board)
    requires
        b.wf(),
        forall|c: int| 0 <= c < b.cells() ==> b.available[c],
    ensures
        !b.has_won(b.bot_id),
        !b.has_won(b.human_id),
        b.position_strength(b.bot_id) == 0,
        b.position_strength(b.human_id) == 0,
        b.evaluation() == 0,
{
    assert forall|c: int| 0 <= c < b.cells() implies b.owner[c] == 0 by {
        assert(b.available[c]);
    }
    lemma_no_stones(b, b.bot_id);
    lemma_no_stones(b, b.human_id);
}

/// A player without a stone has not won and has no strength.
pub proof fn lemma_no_stones(b: Board, player: u8)
    requires
        b.wf(),
        player != 0,
        forall|c: int| 0 <= c < b.cells() ==> b.owner[c] != player,
    ensures
        !b.has_won(player),
        b.position_strength(player) == 0,
{
    lemma_tally_without(b, player, b.cells());
    assert(!b.touches_upto(player, 1, b.cells()));
    assert(!b.touches_upto(player, 2, b.cells()));
    assert(!b.touches_upto(player, 4, b.cells()));
    let t = b.tally(player);
    if b.cells() > 0 {
        assert(t.center * CENTER_WEIGHT * (b.cells() - t.stones) == 0) by (nonlinear_arith)
            requires
                t.center == 0,
        ;
    }
}

/// Without stones of the player among the cells below `upto`, the sums
/// over them are 0.
pub proof fn lemma_tally_without(b: Board, player: u8, upto: int)
    requires
        0 <= upto <= b.cells(),
        forall|c: int| 0 <= c < b.cells() ==> b.owner[c] != player,
    ensures
        b.tally_upto(player, upto).links == 0,
        b.tally_upto(player, upto).strong == 0,
        b.tally_upto(player, upto).center == 0,
    decreases upto,
{
    if upto > 0 {
        lemma_tally_without(b, player, upto - 1);
    }
}

/// One more stone of a player takes no neighbour of the player from any
/// cell.
pub proof fn lemma_friends_grow(b: Board, player: u8, placed: int, c: int, upto: int)
    requires
        b.wf(),
        b.in_range(placed),
        b.available[placed],
        player != 0,
        b.in_range(c),
        0 <= upto <= b.neighbors[c].len(),
    ensures
        b.place(placed, player).friends_upto(player, c, upto) >= b.friends_upto(player, c, upto),
    decreases upto,
{
    if upto > 0 {
        lemma_friends_grow(b, player, placed, c, upto - 1);
        assert(b.neighbors[c][upto - 1] < b.cells());
    }
}

/// A stone of one player changes no count of another player's neighbours.
pub proof fn lemma_friends_kept(b: Board, player: u8, other: u8, placed: int, c: int, upto: int)
    requires
        b.wf(),
        b.in_range(placed),
        b.available[placed],
        other != player,
        other != 0,
        b.in_range(c),
        0 <= upto <= b.neighbors[c].len(),
    ensures
        b.place(placed, player).friends_upto(other, c, upto) == b.friends_upto(other, c, upto),
    decreases upto,
{
    if upto > 0 {
        lemma_friends_kept(b, player, other, placed, c, upto - 1);
        assert(b.neighbors[c][upto - 1] < b.cells());
    }
}

/// One more stone of a player lowers neither the links nor the number of
/// strong stones of that player, and adds one to the stones on the board.
pub proof fn lemma_tally_grows(b: Board, player: u8, placed: int, upto: int)
    requires
        b.wf(),
        b.in_range(placed),
        b.available[placed],
        player != 0,
        0 <= upto <= b.cells(),
    ensures
        b.place(placed, player).tally_upto(player, upto).links >= b.tally_upto(player, upto).links,
        b.place(placed, player).tally_upto(player, upto).strong >= b.tally_upto(player, upto).strong,
        b.place(placed, player).tally_upto(player, upto).stones == b.tally_upto(player, upto).stones + if placed
            < upto { 1int } else { 0 },
    decreases upto,
{
    if upto > 0 {
        lemma_tally_grows(b, player, placed, upto - 1);
        let c = upto - 1;
        let after = b.place(placed, player);
        lemma_friends_grow(b, player, placed, c, b.neighbors[c].len() as int);
        lemma_friends_bounded(after, player, c, after.neighbors[c].len() as int);
    }
}

/// A stone of one player leaves the sums of another player as they were,
/// but for the number of stones on the board.
pub proof fn lemma_tally_kept(b: Board, player: u8, other: u8, placed: int, upto: int)
    requires
        b.wf(),
        b.in_range(placed),
        b.available[placed],
        other != player,
        other != 0,
        0 <= upto <= b.cells(),
    ensures
        b.place(placed, player).tally_upto(other, upto) == (Tally {
            stones: b.tally_upto(other, upto).stones + if placed < upto { 1int } else { 0 },
            ..b.tally_upto(other, upto)
        }),
    decreases upto,
{
    if upto > 0 {
        lemma_tally_kept(b, player, other, placed, upto - 1);
        let c = upto - 1;
        lemma_friends_kept(b, player, other, placed, c, b.neighbors[c].len() as int);
    }
}

/// One more stone of a player, all else unchanged, does not lower what
/// edge coverage and connectivity add to that player's strength, and leaves
/// those of any other player as they were. The weight of centre control,
/// the share of empty cells, shrinks for both.
pub proof fn lemma_more_stones_not_weaker(b: Board, player: u8, other: u8, placed: int)
    requires
        b.wf(),
        b.in_range(placed),
        b.available[placed],
        player != 0,
        other != 0,
        other != player,
    ensures
        b.place(placed, player).structure_score(player) >= b.structure_score(player),
        b.place(placed, player).structure_score(other) == b.structure_score(other),
        b.place(placed, player).tally(other).center == b.tally(other).center,
        b.place(placed, player).tally(player).stones == b.tally(player).stones + 1,
        b.place(placed, player).tally(other).stones == b.tally(other).stones + 1,
{
    let after = b.place(placed, player);
    lemma_tally_grows(b, player, placed, b.cells());
    lemma_tally_kept(b, player, other, placed, b.cells());
    assert forall|bit: u8| b.touches_upto(player, bit, b.cells()) implies after.touches_upto(
        player,
        bit,
        b.cells(),
    ) by {
        let c = choose|c: int| 0 <= c < b.cells() && #[trigger] b.holds(player, c) && has_flag(b.edges[c], bit);
        assert(after.holds(player, c));
    }
    assert forall|bit: u8| b.touches_upto(other, bit, b.cells()) == after.touches_upto(
        other,
        bit,
        b.cells(),
    ) by {
        if b.touches_upto(other, bit, b.cells()) {
            let c = choose|c: int| 0 <= c < b.cells() && #[trigger] b.holds(other, c) && has_flag(b.edges[c], bit);
            assert(after.holds(other, c));
        }
        if after.touches_upto(other, bit, b.cells()) {
            let c = choose|c: int|
                0 <= c < b.cells() && #[trigger] after.holds(other, c) && has_flag(after.edges[c], bit);
            assert(b.holds(other, c));
        }
    }
}

/// At depth 0 the search, pruning or not, returns the evaluation, whoever
/// is to move and whatever the window.
pub proof fn lemma_depth_zero_is_evaluation(b: Board, alpha: int, beta: int, maximizing: bool)
    ensures
        b.alphabeta(0, alpha, beta, maximizing) == b.evaluation(),
        b.minimax_value(0, maximizing) == b.evaluation(),
{
}

/// What the tactical scan reports when either player can win at once. If
/// the engine has a winning cell and the opponent none before the lowest
/// such cell, that cell is reported. If the engine has none and the
/// opponent has one, the lowest cell on which the opponent would win is
/// reported.
pub proof fn lemma_tactical_precedence(b: Board, found: Option<Coordinates>, c: int)
    requires
        tactical_choice(b, found),
    ensures
        b.wins_at(b.bot_id, c) && (forall|w: int| 0 <= w < c ==> !b.tactical_at(w)) ==> found == Some(
            b.coords[c],
        ),
        b.wins_at(b.human_id, c) && (forall|w: int| !b.wins_at(b.bot_id, w)) && (forall|w: int|
            0 <= w < c ==> !b.wins_at(b.human_id, w)) ==> found == Some(b.coords[c]),
        found is None ==> !b.wins_at(b.bot_id, c) && !b.wins_at(b.human_id, c),
{
    if b.tactical_at(c) && (forall|w: int| 0 <= w < c ==> !b.tactical_at(w)) {
        assert(found is Some);
        let first = choose|first: int| #[trigger]
            b.tactical_at(first) && found.unwrap() == b.coords[first] && forall|w: int|
                0 <= w < first ==> !b.tactical_at(w);
        assert(first == c);
    }
    if found is None {
        assert(!b.tactical_at(c));
    }
}

/// A stone with no neighbour of its own player is a group by itself: the
/// sides its group touches are its own, so it wins only if it touches all
/// three.
pub proof fn lemma_isolated_stone(b: Board, player: u8, c: int)
    requires
        b.wf(),
        b.in_range(c),
        forall|k: int| 0 <= k < b.neighbors[c].len() ==> b.owner[#[trigger] b.neighbors[c][k] as int] != player,
    ensures
        b.group_edges(player, nothing_blocked(b.cells()), c) == b.edges[c],
{
    let free = nothing_blocked(b.cells());
    lemma_reaches_self(b, player, free, c);
    assert forall|w: int| b.reaches(player, free, c, w) implies w == c by {
        let path = choose|path: Seq<int>| #[trigger] b.is_walk(player, free, path) && path[0] == c && path.last() == w;
        if path.len() > 1 {
            assert(b.open_step(player, free, path[0], path[1]));
            let k = choose|k: int| 0 <= k < b.neighbors[c].len() && #[trigger] b.neighbors[c][k] == path[1];
            assert(b.owner[b.neighbors[c][k] as int] == player);
        }
    }
    assert forall|bit: u8| b.group_touches(player, free, c, bit) == has_flag(b.edges[c], bit) by {
        if b.group_touches(player, free, c, bit) {
            let w = choose|w: int| #[trigger] b.reaches(player, free, c, w) && b.edges[w] & bit != 0;
            assert(w == c);
        }
    }
    lemma_flags_value(b.edges[c]);
}

/// Stones of a player of which no two are adjacent do not win, however
/// many sides they touch between them, unless one of them touches all three
/// by itself.
pub proof fn lemma_scattered_stones_do_not_win(b: Board, player: u8)
    requires
        b.wf(),
        forall|c: int, k: int|
            0 <= c < b.cells() && b.owner[c] == player && 0 <= k < b.neighbors[c].len()
                ==> b.owner[#[trigger] b.neighbors[c][k] as int] != player,
        forall|c: int| 0 <= c < b.cells() && b.owner[c] == player ==> b.edges[c] != ALL_SIDES,
    ensures
        !b.has_won(player),
{
    if b.has_won(player) {
        let s = choose|s: int|
            b.in_range(s) && b.owner[s] == player && #[trigger] b.group_edges(
                player,
                nothing_blocked(b.cells()),
                s,
            ) == ALL_SIDES;
        lemma_isolated_stone(b, player, s);
    }
}

/// Three stones of `player`, one on each side, all joined to the first by
/// walks over stones of `player`.
pub open spec fn joins_three_sides(b: Board, player: u8, a: int, on_b: int, on_c: int) -> bool {
    let free = nothing_blocked(b.cells());
    &&& b.in_range(a)
    &&& b.owner[a] == player
    &&& has_flag(b.edges[a], 1)
    &&& has_flag(b.edges[on_b], 2)
    &&& has_flag(b.edges[on_c], 4)
    &&& b.reaches(player, free, a, on_b)
    &&& b.reaches(player, free, a, on_c)
}

/// A player has won exactly when stones of that player on each of the
/// three sides belong to one connected group.
pub proof fn lemma_win_joins_three_sides(b: Board, player: u8)
    requires
        b.wf(),
    ensures
        b.has_won(player) <==> exists|a: int, on_b: int, on_c: int| joins_three_sides(b, player, a, on_b, on_c),
{
    let free = nothing_blocked(b.cells());
    if b.has_won(player) {
        let s = choose|s: int|
            b.in_range(s) && b.owner[s] == player && #[trigger] b.group_edges(player, free, s) == ALL_SIDES;
        assert(b.group_touches(player, free, s, 1));
        assert(b.group_touches(player, free, s, 2));
        assert(b.group_touches(player, free, s, 4));
        let a = choose|a: int| #[trigger] b.reaches(player, free, s, a) && b.edges[a] & 1 != 0;
        let on_b = choose|c: int| #[trigger] b.reaches(player, free, s, c) && b.edges[c] & 2 != 0;
        let on_c = choose|c: int| #[trigger] b.reaches(player, free, s, c) && b.edges[c] & 4 != 0;
        lemma_reached_is_open(b, player, free, s, a);
        lemma_reaches_symmetric(b, player, s, a);
        lemma_reaches_transitive(b, player, free, a, s, on_b);
        lemma_reaches_transitive(b, player, free, a, s, on_c);
        assert(joins_three_sides(b, player, a, on_b, on_c));
    }
    if exists|a: int, on_b: int, on_c: int| joins_three_sides(b, player, a, on_b, on_c) {
        let (a, on_b, on_c) = choose|a: int, on_b: int, on_c: int| joins_three_sides(b, player, a, on_b, on_c);
        lemma_reaches_self(b, player, free, a);
        assert(b.group_touches(player, free, a, 1));
        assert(b.group_touches(player, free, a, 2));
        assert(b.group_touches(player, free, a, 4));
        assert(b.group_edges(player, free, a) == ALL_SIDES);
    }
}

} // verus!
