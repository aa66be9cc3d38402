//! Facts about walks on a board: how they grow, join and turn round, and
//! what a finished traversal has seen.
use crate::board::{nothing_blocked, Board, ALL_SIDES};
use vstd::prelude::*;

verus! {

/// Whether the side `bit` is among the flags `flags`.
pub open spec fn has_flag(flags: u8, bit: u8) -> bool {
    flags & bit != 0
}

/// Every side flagged in `part` is flagged in `whole`.
pub open spec fn flags_within(part: u8, whole: u8) -> bool {
    &&& has_flag(part, 1) ==> has_flag(whole, 1)
    &&& has_flag(part, 2) ==> has_flag(whole, 2)
    &&& has_flag(part, 4) ==> has_flag(whole, 4)
}

/// Number of cells not yet visited.
pub open spec fn unvisited(flags: Seq<bool>) -> nat
    decreases flags.len(),
{
    if flags.len() == 0 {
        0
    } else {
        unvisited(flags.drop_last()) + if flags.last() { 0nat } else { 1nat }
    }
}

/// Visiting a cell leaves one cell less to visit.
pub proof fn lemma_visit_one(flags: Seq<bool>, c: int)
    requires
        0 <= c < flags.len(),
        !flags[c],
    ensures
        unvisited(flags.update(c, true)) + 1 == unvisited(flags),
    decreases flags.len(),
{
    let after = flags.update(c, true);
    if c == flags.len() - 1 {
        assert(after.drop_last() =~= flags.drop_last());
    } else {
        assert(after.drop_last() =~= flags.drop_last().update(c, true));
        lemma_visit_one(flags.drop_last(), c);
    }
}

/// Joining flags: a side is in the union when it is in either part.
pub proof fn lemma_flags_union(m: u8, e: u8)
    requires
        m <= ALL_SIDES,
        e <= ALL_SIDES,
    ensures
        (m | e) <= ALL_SIDES,
        has_flag(m | e, 1) == (has_flag(m, 1) || has_flag(e, 1)),
        has_flag(m | e, 2) == (has_flag(m, 2) || has_flag(e, 2)),
        has_flag(m | e, 4) == (has_flag(m, 4) || has_flag(e, 4)),
{
    assert(m <= 7 && e <= 7 ==> (m | e) <= 7) by (bit_vector);
    assert(((m | e) & 1 != 0) == ((m & 1 != 0) || (e & 1 != 0))) by (bit_vector);
    assert(((m | e) & 2 != 0) == ((m & 2 != 0) || (e & 2 != 0))) by (bit_vector);
    assert(((m | e) & 4 != 0) == ((m & 4 != 0) || (e & 4 != 0))) by (bit_vector);
}

/// Flags below eight are the sum of their three sides.
pub proof fn lemma_flags_value(m: u8)
    requires
        m <= ALL_SIDES,
    ensures
        m == (if has_flag(m, 1) { 1int } else { 0 }) + (if has_flag(m, 2) { 2int } else { 0 }) + (if has_flag(
            m,
            4,
        ) { 4int } else { 0 }),
        (m == 0) == (!has_flag(m, 1) && !has_flag(m, 2) && !has_flag(m, 4)),
{
    assert(m <= 7 ==> m == (m & 1) + (m & 2) + (m & 4)) by (bit_vector);
    assert((m & 1) == 0 || (m & 1) == 1) by (bit_vector);
    assert((m & 2) == 0 || (m & 2) == 2) by (bit_vector);
    assert((m & 4) == 0 || (m & 4) == 4) by (bit_vector);
}

/// A cell reaches itself.
pub proof fn lemma_reaches_self(b: Board, player: u8, blocked: Seq<bool>, c: int)
    requires
        b.in_range(c),
    ensures
        b.reaches(player, blocked, c, c),
{
    let path = seq![c];
    assert(b.is_walk(player, blocked, path));
    assert(path[0] == c && path.last() == c);
}

/// A walk grows by one open step.
pub proof fn lemma_reaches_step(b: Board, player: u8, blocked: Seq<bool>, from: int, c: int, w: int)
    requires
        b.reaches(player, blocked, from, c),
        b.open_step(player, blocked, c, w),
    ensures
        b.reaches(player, blocked, from, w),
{
    let path = choose|path: Seq<int>|
        #[trigger] b.is_walk(player, blocked, path) && path[0] == from && path.last() == c;
    let longer = path.push(w);
    assert forall|i: int| 0 < i < longer.len() implies b.open_step(
        player,
        blocked,
        longer[i - 1],
        #[trigger] longer[i],
    ) by {
        if i < path.len() {
            assert(longer[i] == path[i]);
            assert(longer[i - 1] == path[i - 1]);
        }
    }
    assert(b.is_walk(player, blocked, longer));
    assert(longer[0] == from && longer.last() == w);
}

/// What a walk reaches, other than its start, is an unblocked cell of the
/// player.
pub proof fn lemma_reached_is_open(b: Board, player: u8, blocked: Seq<bool>, from: int, to: int)
    requires
        b.reaches(player, blocked, from, to),
    ensures
        b.in_range(from),
        b.in_range(to),
        to != from ==> b.owner[to] == player && !blocked[to],
{
    let path = choose|path: Seq<int>|
        #[trigger] b.is_walk(player, blocked, path) && path[0] == from && path.last() == to;
    if path.len() > 1 {
        assert(b.open_step(player, blocked, path[path.len() - 2], path[path.len() - 1]));
    }
}

/// Two walks that meet make one walk.
pub proof fn lemma_reaches_transitive(b: Board, player: u8, blocked: Seq<bool>, x: int, y: int, z: int)
    requires
        b.reaches(player, blocked, x, y),
        b.reaches(player, blocked, y, z),
    ensures
        b.reaches(player, blocked, x, z),
{
    let second = choose|path: Seq<int>|
        #[trigger] b.is_walk(player, blocked, path) && path[0] == y && path.last() == z;
    lemma_reaches_along(b, player, blocked, x, second, second.len() - 1);
}

/// If `from` reaches the start of a walk, it reaches every cell on it.
pub proof fn lemma_reaches_along(b: Board, player: u8, blocked: Seq<bool>, from: int, path: Seq<int>, i: int)
    requires
        b.is_walk(player, blocked, path),
        b.reaches(player, blocked, from, path[0]),
        0 <= i < path.len(),
    ensures
        b.reaches(player, blocked, from, path[i]),
    decreases i,
{
    if i > 0 {
        lemma_reaches_along(b, player, blocked, from, path, i - 1);
        assert(b.open_step(player, blocked, path[i - 1], path[i]));
        lemma_reaches_step(b, player, blocked, from, path[i - 1], path[i]);
    }
}

/// On an undirected graph, with nothing blocked, a walk between two stones
/// of one player can be walked back.
pub proof fn lemma_reaches_symmetric(b: Board, player: u8, x: int, y: int)
    requires
        b.graph_ok(),
        b.in_range(x),
        b.owner[x] == player,
        b.reaches(player, nothing_blocked(b.cells()), x, y),
    ensures
        b.reaches(player, nothing_blocked(b.cells()), y, x),
{
    let free = nothing_blocked(b.cells());
    let path = choose|path: Seq<int>|
        #[trigger] b.is_walk(player, free, path) && path[0] == x && path.last() == y;
    lemma_walk_back(b, player, path, path.len() - 1);
}

/// Every cell on an unblocked walk that starts on a stone of the player
/// reaches the start.
pub proof fn lemma_walk_back(b: Board, player: u8, path: Seq<int>, i: int)
    requires
        b.graph_ok(),
        b.is_walk(player, nothing_blocked(b.cells()), path),
        b.owner[path[0]] == player,
        0 <= i < path.len(),
    ensures
        b.reaches(player, nothing_blocked(b.cells()), path[i], path[0]),
    decreases i,
{
    let free = nothing_blocked(b.cells());
    if i == 0 {
        lemma_reaches_self(b, player, free, path[0]);
    } else {
        lemma_walk_back(b, player, path, i - 1);
        assert(b.open_step(player, free, path[i - 1], path[i]));
        if i - 1 > 0 {
            assert(b.open_step(player, free, path[i - 2], path[i - 1]));
        }
        assert(b.adjacent(path[i], path[i - 1]));
        assert(b.open_step(player, free, path[i], path[i - 1]));
        lemma_reaches_self(b, player, free, path[i]);
        lemma_reaches_step(b, player, free, path[i], path[i], path[i - 1]);
        lemma_reaches_transitive(b, player, free, path[i], path[i - 1], path[0]);
    }
}

/// A walk that avoids blocked cells is a walk when nothing is blocked.
pub proof fn lemma_reaches_unblocked(b: Board, player: u8, blocked: Seq<bool>, x: int, y: int)
    requires
        b.reaches(player, blocked, x, y),
    ensures
        b.reaches(player, nothing_blocked(b.cells()), x, y),
{
    let free = nothing_blocked(b.cells());
    let path = choose|path: Seq<int>|
        #[trigger] b.is_walk(player, blocked, path) && path[0] == x && path.last() == y;
    assert forall|i: int| 0 < i < path.len() implies b.open_step(player, free, path[i - 1], #[trigger] path[i]) by {
        assert(b.open_step(player, blocked, path[i - 1], path[i]));
    }
    assert(b.is_walk(player, free, path));
}

/// The blocked cells are stones of the player and every stone of the player
/// next to a blocked cell is blocked too.
pub open spec fn closed_group(b: Board, player: u8, blocked: Seq<bool>) -> bool {
    &&& blocked.len() == b.cells()
    &&& forall|c: int| 0 <= c < b.cells() && #[trigger] blocked[c] ==> b.owner[c] == player
    &&& forall|c: int, w: int|
        0 <= c < b.cells() && blocked[c] && #[trigger] b.adjacent(c, w) && b.owner[w] == player
            ==> blocked[w]
}

/// A walk that starts outside a closed set of blocked cells never meets
/// one, so blocking them changes nothing.
pub proof fn lemma_closed_group_avoided(b: Board, player: u8, blocked: Seq<bool>, path: Seq<int>, i: int)
    requires
        b.graph_ok(),
        closed_group(b, player, blocked),
        b.is_walk(player, nothing_blocked(b.cells()), path),
        b.owner[path[0]] == player,
        !blocked[path[0]],
        0 <= i < path.len(),
    ensures
        b.in_range(path[i]),
        !blocked[path[i]],
        b.owner[path[i]] == player,
        b.reaches(player, blocked, path[0], path[i]),
    decreases i,
{
    let free = nothing_blocked(b.cells());
    if i == 0 {
        lemma_reaches_self(b, player, blocked, path[0]);
    } else {
        lemma_closed_group_avoided(b, player, blocked, path, i - 1);
        assert(b.open_step(player, free, path[i - 1], path[i]));
        assert(b.adjacent(path[i], path[i - 1]));
        assert(b.open_step(player, blocked, path[i - 1], path[i]));
        lemma_reaches_step(b, player, blocked, path[0], path[i - 1], path[i]);
    }
}

/// From a stone outside a closed set of blocked cells, blocking them does
/// not change what is reached.
pub proof fn lemma_blocking_closed_group(b: Board, player: u8, blocked: Seq<bool>, x: int, y: int)
    requires
        b.graph_ok(),
        closed_group(b, player, blocked),
        b.in_range(x),
        b.owner[x] == player,
        !blocked[x],
    ensures
        b.reaches(player, blocked, x, y) == b.reaches(player, nothing_blocked(b.cells()), x, y),
{
    let free = nothing_blocked(b.cells());
    if b.reaches(player, blocked, x, y) {
        lemma_reaches_unblocked(b, player, blocked, x, y);
    }
    if b.reaches(player, free, x, y) {
        let path = choose|path: Seq<int>|
            #[trigger] b.is_walk(player, free, path) && path[0] == x && path.last() == y;
        lemma_closed_group_avoided(b, player, blocked, path, path.len() - 1);
    }
}

/// A traversal may pass over the neighbour `w`: it is visited, or it is not
/// an unblocked stone of the player.
pub open spec fn neighbor_seen(b: Board, player: u8, blocked: Seq<bool>, visited: Seq<bool>, w: int) -> bool {
    b.owner[w] == player && !blocked[w] ==> visited[w]
}

/// The first `upto` neighbours of `c` have been looked at.
pub open spec fn expanded_upto(
    b: Board,
    player: u8,
    blocked: Seq<bool>,
    visited: Seq<bool>,
    c: int,
    upto: int,
) -> bool {
    forall|k: int|
        0 <= k < upto && k < b.neighbors[c].len() ==> neighbor_seen(
            b,
            player,
            blocked,
            visited,
            #[trigger] b.neighbors[c][k] as int,
        )
}

/// Cell `c` waits on the stack.
pub open spec fn on_stack(stack: Seq<usize>, c: int) -> bool {
    exists|j: int| 0 <= j < stack.len() && #[trigger] stack[j] == c
}

/// What holds between two steps of a traversal from `start`: `blocked` are
/// the flags it found, `visited` the flags now, `stack` the cells waiting,
/// `done` the cells whose neighbours have all been looked at, `mask` the
/// sides collected, `current` the cell in hand, if any.
pub open spec fn traversal_inv(
    b: Board,
    player: u8,
    blocked: Seq<bool>,
    start: int,
    visited: Seq<bool>,
    stack: Seq<usize>,
    done: Set<int>,
    mask: u8,
    current: Option<int>,
) -> bool {
    &&& b.in_range(start)
    &&& blocked.len() == b.cells()
    &&& visited.len() == b.cells()
    &&& visited[start]
    &&& mask <= ALL_SIDES
    &&& forall|j: int|
        0 <= j < stack.len() ==> b.in_range(#[trigger] stack[j] as int) && visited[stack[j] as int]
            && b.reaches(player, blocked, start, stack[j] as int)
    &&& forall|c: int| 0 <= c < b.cells() && #[trigger] blocked[c] ==> visited[c]
    &&& forall|c: int|
        0 <= c < b.cells() && #[trigger] visited[c] ==> blocked[c] || b.reaches(player, blocked, start, c)
    &&& forall|c: int| #[trigger]
        done.contains(c) ==> b.in_range(c) && b.reaches(player, blocked, start, c) && flags_within(
            b.edges[c],
            mask,
        ) && expanded_upto(b, player, blocked, visited, c, b.neighbors[c].len() as int)
    &&& forall|c: int|
        0 <= c < b.cells() && ((#[trigger] visited[c] && !blocked[c]) || c == start) ==> done.contains(c)
            || on_stack(stack, c) || current == Some(c)
    &&& has_flag(mask, 1) ==> b.group_touches(player, blocked, start, 1)
    &&& has_flag(mask, 2) ==> b.group_touches(player, blocked, start, 2)
    &&& has_flag(mask, 4) ==> b.group_touches(player, blocked, start, 4)
}

/// Once nothing waits, the traversal has finished every cell that a walk
/// from the start reaches.
pub proof fn lemma_traversal_complete(
    b: Board,
    player: u8,
    blocked: Seq<bool>,
    start: int,
    visited: Seq<bool>,
    done: Set<int>,
    mask: u8,
    path: Seq<int>,
    i: int,
)
    requires
        b.wf(),
        traversal_inv(b, player, blocked, start, visited, Seq::<usize>::empty(), done, mask, None),
        b.is_walk(player, blocked, path),
        path[0] == start,
        0 <= i < path.len(),
    ensures
        done.contains(path[i]),
    decreases i,
{
    let stack = Seq::<usize>::empty();
    if i == 0 {
        assert(!on_stack(stack, start));
    } else {
        lemma_traversal_complete(b, player, blocked, start, visited, done, mask, path, i - 1);
        let a = path[i - 1];
        let w = path[i];
        assert(b.open_step(player, blocked, a, w));
        let k = choose|k: int| 0 <= k < b.neighbors[a].len() && #[trigger] b.neighbors[a][k] == w;
        assert(expanded_upto(b, player, blocked, visited, a, b.neighbors[a].len() as int));
        assert(neighbor_seen(b, player, blocked, visited, b.neighbors[a][k] as int));
        assert(visited[w]);
        assert(!on_stack(stack, w));
    }
}

/// When a traversal ends with nothing waiting, its mask holds exactly the
/// sides of the group and its flags mark exactly the group, besides what was
/// blocked.
pub proof fn lemma_traversal_result(
    b: Board,
    player: u8,
    blocked: Seq<bool>,
    start: int,
    visited: Seq<bool>,
    done: Set<int>,
    mask: u8,
)
    requires
        b.wf(),
        traversal_inv(b, player, blocked, start, visited, Seq::<usize>::empty(), done, mask, None),
    ensures
        mask == b.group_edges(player, blocked, start),
        forall|c: int|
            0 <= c < b.cells() ==> #[trigger] visited[c] == (blocked[c] || b.reaches(
                player,
                blocked,
                start,
                c,
            )),
{
    assert forall|c: int| b.reaches(player, blocked, start, c) implies done.contains(c) by {
        let path = choose|path: Seq<int>|
            #[trigger] b.is_walk(player, blocked, path) && path[0] == start && path.last() == c;
        lemma_traversal_complete(b, player, blocked, start, visited, done, mask, path, path.len() - 1);
    }
    assert forall|bit: u8|
        #[trigger] b.group_touches(player, blocked, start, bit) && (bit == 1 || bit == 2 || bit == 4) implies has_flag(
        mask,
        bit,
    ) by {
        let c = choose|c: int| #[trigger] b.reaches(player, blocked, start, c) && b.edges[c] & bit != 0;
        assert(done.contains(c));
        assert(flags_within(b.edges[c], mask));
    }
    lemma_flags_value(mask);
    assert forall|c: int| 0 <= c < b.cells() implies #[trigger] visited[c] == (blocked[c] || b.reaches(
        player,
        blocked,
        start,
        c,
    )) by {
        if b.reaches(player, blocked, start, c) {
            assert(done.contains(c));
            let stack = Seq::<usize>::empty();
            lemma_reached_is_open(b, player, blocked, start, c);
            if c != start {
                assert(expanded_upto(b, player, blocked, visited, c, b.neighbors[c].len() as int));
            }
            lemma_done_is_visited(b, player, blocked, start, visited, done, mask, c);
        }
    }
}

/// A finished cell has been visited.
pub proof fn lemma_done_is_visited(
    b: Board,
    player: u8,
    blocked: Seq<bool>,
    start: int,
    visited: Seq<bool>,
    done: Set<int>,
    mask: u8,
    c: int,
)
    requires
        b.wf(),
        traversal_inv(b, player, blocked, start, visited, Seq::<usize>::empty(), done, mask, None),
        b.reaches(player, blocked, start, c),
    ensures
        visited[c],
{
    let path = choose|path: Seq<int>|
        #[trigger] b.is_walk(player, blocked, path) && path[0] == start && path.last() == c;
    if path.len() > 1 {
        let i = path.len() - 1;
        lemma_traversal_complete(b, player, blocked, start, visited, done, mask, path, i - 1);
        let a = path[i - 1];
        assert(b.open_step(player, blocked, a, c));
        let k = choose|k: int| 0 <= k < b.neighbors[a].len() && #[trigger] b.neighbors[a][k] == c;
        assert(expanded_upto(b, player, blocked, visited, a, b.neighbors[a].len() as int));
        assert(neighbor_seen(b, player, blocked, visited, b.neighbors[a][k] as int));
    }
}

/// From a stone outside a closed set of blocked cells, blocking them does
/// not change the sides that its group touches.
pub proof fn lemma_group_edges_blocking(b: Board, player: u8, blocked: Seq<bool>, x: int)
    requires
        b.graph_ok(),
        closed_group(b, player, blocked),
        b.in_range(x),
        b.owner[x] == player,
        !blocked[x],
    ensures
        b.group_edges(player, blocked, x) == b.group_edges(player, nothing_blocked(b.cells()), x),
{
    let free = nothing_blocked(b.cells());
    assert forall|bit: u8| b.group_touches(player, blocked, x, bit) == b.group_touches(player, free, x, bit) by {
        if b.group_touches(player, blocked, x, bit) {
            let c = choose|c: int| #[trigger] b.reaches(player, blocked, x, c) && b.edges[c] & bit != 0;
            lemma_blocking_closed_group(b, player, blocked, x, c);
            assert(b.reaches(player, free, x, c));
        }
        if b.group_touches(player, free, x, bit) {
            let c = choose|c: int| #[trigger] b.reaches(player, free, x, c) && b.edges[c] & bit != 0;
            lemma_blocking_closed_group(b, player, blocked, x, c);
            assert(b.reaches(player, blocked, x, c));
        }
    }
}

/// Two stones of one group touch the same sides.
pub proof fn lemma_group_edges_shared(b: Board, player: u8, x: int, y: int)
    requires
        b.graph_ok(),
        b.in_range(x),
        b.owner[x] == player,
        b.reaches(player, nothing_blocked(b.cells()), x, y),
    ensures
        b.group_edges(player, nothing_blocked(b.cells()), x) == b.group_edges(
            player,
            nothing_blocked(b.cells()),
            y,
        ),
{
    let free = nothing_blocked(b.cells());
    lemma_reaches_symmetric(b, player, x, y);
    assert forall|bit: u8| b.group_touches(player, free, x, bit) == b.group_touches(player, free, y, bit) by {
        if b.group_touches(player, free, x, bit) {
            let c = choose|c: int| #[trigger] b.reaches(player, free, x, c) && b.edges[c] & bit != 0;
            lemma_reaches_transitive(b, player, free, y, x, c);
        }
        if b.group_touches(player, free, y, bit) {
            let c = choose|c: int| #[trigger] b.reaches(player, free, y, c) && b.edges[c] & bit != 0;
            lemma_reaches_transitive(b, player, free, x, y, c);
        }
    }
}

/// What a win check knows of the cells it has flagged: they form a closed
/// set of stones of the player, and none of them belongs to a winning
/// group.
pub open spec fn searched_without_win(b: Board, player: u8, visited: Seq<bool>) -> bool {
    &&& closed_group(b, player, visited)
    &&& forall|c: int|
        0 <= c < b.cells() && #[trigger] visited[c] ==> b.group_edges(
            player,
            nothing_blocked(b.cells()),
            c,
        ) != ALL_SIDES
}

/// A traversal from an unflagged stone that ends without all three sides
/// leaves the flags a closed set without a winning group.
pub proof fn lemma_search_goes_on(b: Board, player: u8, blocked: Seq<bool>, start: int, visited: Seq<bool>)
    requires
        b.wf(),
        searched_without_win(b, player, blocked),
        b.in_range(start),
        b.owner[start] == player,
        !blocked[start],
        visited.len() == b.cells(),
        b.group_edges(player, blocked, start) != ALL_SIDES,
        forall|c: int|
            0 <= c < b.cells() ==> #[trigger] visited[c] == (blocked[c] || b.reaches(
                player,
                blocked,
                start,
                c,
            )),
    ensures
        searched_without_win(b, player, visited),
        visited[start],
{
    let free = nothing_blocked(b.cells());
    lemma_reaches_self(b, player, blocked, start);
    lemma_group_edges_blocking(b, player, blocked, start);
    assert forall|c: int| 0 <= c < b.cells() && #[trigger] visited[c] implies b.owner[c] == player
        && b.group_edges(player, free, c) != ALL_SIDES by {
        if !blocked[c] {
            lemma_reached_is_open(b, player, blocked, start, c);
            lemma_reaches_unblocked(b, player, blocked, start, c);
            lemma_group_edges_shared(b, player, start, c);
        }
    }
    assert forall|c: int, w: int|
        0 <= c < b.cells() && visited[c] && #[trigger] b.adjacent(c, w) && b.owner[w]
            == player implies visited[w] by {
        let k = choose|k: int| 0 <= k < b.neighbors[c].len() && #[trigger] b.neighbors[c][k] == w;
        assert(b.in_range(w));
        if !blocked[c] && !blocked[w] {
            assert(b.open_step(player, blocked, c, w));
            lemma_reaches_step(b, player, blocked, start, c, w);
        }
    }
}

/// When every stone of the player on a side has been flagged and no
/// flagged stone belongs to a winning group, the player has not won.
pub proof fn lemma_no_win(b: Board, player: u8, visited: Seq<bool>)
    requires
        b.wf(),
        searched_without_win(b, player, visited),
        forall|c: int|
            0 <= c < b.cells() && b.owner[c] == player && b.edges[c] != 0 ==> #[trigger] visited[c],
    ensures
        !b.has_won(player),
{
    let free = nothing_blocked(b.cells());
    if b.has_won(player) {
        let s = choose|s: int|
            b.in_range(s) && b.owner[s] == player && #[trigger] b.group_edges(player, free, s)
                == ALL_SIDES;
        assert(b.group_touches(player, free, s, 1));
        let a = choose|a: int| #[trigger] b.reaches(player, free, s, a) && b.edges[a] & 1 != 0;
        lemma_reached_is_open(b, player, free, s, a);
        let e = b.edges[a];
        assert(e & 1 != 0 ==> e != 0) by (bit_vector);
        assert(visited[a]);
        lemma_group_edges_shared(b, player, s, a);
    }
}

/// Flags that hold all three sides name a group that touches each.
pub proof fn lemma_all_sides(m: u8)
    requires
        m == ALL_SIDES,
    ensures
        has_flag(m, 1),
        has_flag(m, 2),
        has_flag(m, 4),
{
    assert(7u8 & 1 != 0) by (bit_vector);
    assert(7u8 & 2 != 0) by (bit_vector);
    assert(7u8 & 4 != 0) by (bit_vector);
}

} // verus!
