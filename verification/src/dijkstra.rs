use vstd::prelude::*;

use crate::grid::Grid;
use crate::grid::TileType;

verus! {

broadcast use vstd::seq_lib::lemma_seq_contains_after_push;

/// Sentinel distance value for cells the flood never reaches. Every real
/// distance is strictly below the cell count, so the sentinel is
/// distinguishable from any finite distance.
pub const UNREACHABLE: usize = usize::MAX;

pub open spec fn valid_idx(g: Grid, i: int) -> bool {
    0 <= i < g.tiles@.len()
}

pub open spec fn is_floor(g: Grid, i: int) -> bool {
    valid_idx(g, i) && g.tiles@[i] == TileType::Floor
}

pub open spec fn col(g: Grid, i: int) -> int {
    i % (g.width as int)
}

pub open spec fn row(g: Grid, i: int) -> int {
    i / (g.width as int)
}

/// Four-way (cardinal) adjacency between two valid cell indices, the
/// connectivity the architects carve with.
pub open spec fn adjacent(g: Grid, a: int, b: int) -> bool {
    &&& valid_idx(g, a)
    &&& valid_idx(g, b)
    &&& {
        ||| (row(g, a) == row(g, b) && (col(g, a) == col(g, b) + 1 || col(g, b) == col(g, a) + 1))
        ||| (col(g, a) == col(g, b) && (row(g, a) == row(g, b) + 1 || row(g, b) == row(g, a) + 1))
    }
}

/// There is a walk of at most `n` steps from `s` to `c` that enters only
/// Floor cells after leaving `s`.
pub open spec fn reachable_in(g: Grid, s: int, c: int, n: nat) -> bool
    decreases n,
{
    c == s || (n > 0 && exists|a: int|
        reachable_in(g, s, a, (n - 1) as nat) && #[trigger] adjacent(g, a, c) && is_floor(g, c))
}

/// Floor-to-Floor reachability from the source cell `s`.
pub open spec fn reachable(g: Grid, s: int, c: int) -> bool {
    exists|n: nat| reachable_in(g, s, c, n)
}

/// `d` is the length of a shortest walk from `s` to `c`: some walk of
/// `d` steps reaches `c`, and no shorter one does.
pub open spec fn spec_dist_is(g: Grid, s: int, c: int, d: nat) -> bool {
    reachable_in(g, s, c, d) && (forall|k: nat| k < d ==> !#[trigger] reachable_in(g, s, c, k))
}

/// The shortest-walk distance from `s` to `c`; meaningful exactly on the
/// reachable cells.
pub open spec fn spec_dist(g: Grid, s: int, c: int) -> nat {
    choose|d: nat| spec_dist_is(g, s, c, d)
}

/// One more step from a cell reached in `n` steps lands on an adjacent
/// Floor cell in `n + 1` steps.
pub proof fn lemma_step_in(g: Grid, s: int, a: int, b: int, n: nat)
    requires
        reachable_in(g, s, a, n),
        adjacent(g, a, b),
        is_floor(g, b),
    ensures
        reachable_in(g, s, b, n + 1),
{
    assert(reachable_in(g, s, a, ((n + 1) - 1) as nat));
}

/// One more step from a reachable cell onto an adjacent Floor cell stays
/// reachable.
pub proof fn lemma_step(g: Grid, s: int, a: int, b: int)
    requires
        reachable(g, s, a),
        adjacent(g, a, b),
        is_floor(g, b),
    ensures
        reachable(g, s, b),
{
    let n = choose|n: nat| reachable_in(g, s, a, n);
    lemma_step_in(g, s, a, b, n);
}

/// Walks survive turning more cells into Floor: a walk in the sparser
/// grid is a walk in the denser one of the same shape.
pub proof fn lemma_reachable_in_monotone(g1: Grid, g2: Grid, s: int, c: int, n: nat)
    requires
        g1.width == g2.width,
        g1.tiles@.len() == g2.tiles@.len(),
        forall|i: int| is_floor(g1, i) ==> is_floor(g2, i),
        reachable_in(g1, s, c, n),
    ensures
        reachable_in(g2, s, c, n),
    decreases n,
{
    if c != s {
        let a = choose|a: int|
            reachable_in(g1, s, a, (n - 1) as nat) && #[trigger] adjacent(g1, a, c)
                && is_floor(g1, c);
        lemma_reachable_in_monotone(g1, g2, s, a, (n - 1) as nat);
        assert(adjacent(g2, a, c));
        assert(is_floor(g2, c));
    }
}

proof fn lemma_reachable_trans_in(g: Grid, s: int, a: int, b: int, n: nat)
    requires
        reachable(g, s, a),
        reachable_in(g, a, b, n),
    ensures
        reachable(g, s, b),
    decreases n,
{
    if b != a {
        let c = choose|c: int|
            reachable_in(g, a, c, (n - 1) as nat) && #[trigger] adjacent(g, c, b)
                && is_floor(g, b);
        lemma_reachable_trans_in(g, s, a, c, (n - 1) as nat);
        lemma_step(g, s, c, b);
    }
}

/// Walks concatenate: what is reachable from a reachable cell is
/// reachable from the source.
pub proof fn lemma_reachable_trans(g: Grid, s: int, a: int, b: int)
    requires
        reachable(g, s, a),
        reachable(g, a, b),
    ensures
        reachable(g, s, b),
{
    let n = choose|n: nat| reachable_in(g, a, b, n);
    lemma_reachable_trans_in(g, s, a, b, n);
}

/// Walking along an all-Floor horizontal segment, in either direction,
/// keeps every cell of it reachable.
pub proof fn lemma_h_walk(g: Grid, s: int, y: int, xa: int, xb: int)
    requires
        g.wf(),
        0 <= y < g.height,
        0 <= xa < g.width,
        0 <= xb < g.width,
        forall|x: int| (if xa <= xb { xa } else { xb }) <= x <= (if xa <= xb { xb } else { xa })
            ==> is_floor(g, #[trigger] g.spec_idx(x, y)),
        reachable(g, s, g.spec_idx(xa, y)),
    ensures
        reachable(g, s, g.spec_idx(xb, y)),
    decreases (if xa <= xb { xb - xa } else { xa - xb }),
{
    if xa < xb {
        lemma_coords_of_idx(g, xa, y);
        lemma_coords_of_idx(g, xa + 1, y);
        lemma_step(g, s, g.spec_idx(xa, y), g.spec_idx(xa + 1, y));
        lemma_h_walk(g, s, y, xa + 1, xb);
    } else if xa > xb {
        lemma_coords_of_idx(g, xa, y);
        lemma_coords_of_idx(g, xa - 1, y);
        lemma_step(g, s, g.spec_idx(xa, y), g.spec_idx(xa - 1, y));
        lemma_h_walk(g, s, y, xa - 1, xb);
    }
}

/// Walking along an all-Floor vertical segment, in either direction,
/// keeps every cell of it reachable.
pub proof fn lemma_v_walk(g: Grid, s: int, x: int, ya: int, yb: int)
    requires
        g.wf(),
        0 <= x < g.width,
        0 <= ya < g.height,
        0 <= yb < g.height,
        forall|y: int| (if ya <= yb { ya } else { yb }) <= y <= (if ya <= yb { yb } else { ya })
            ==> is_floor(g, #[trigger] g.spec_idx(x, y)),
        reachable(g, s, g.spec_idx(x, ya)),
    ensures
        reachable(g, s, g.spec_idx(x, yb)),
    decreases (if ya <= yb { yb - ya } else { ya - yb }),
{
    if ya < yb {
        lemma_coords_of_idx(g, x, ya);
        lemma_coords_of_idx(g, x, ya + 1);
        lemma_step(g, s, g.spec_idx(x, ya), g.spec_idx(x, ya + 1));
        lemma_v_walk(g, s, x, ya + 1, yb);
    } else if ya > yb {
        lemma_coords_of_idx(g, x, ya);
        lemma_coords_of_idx(g, x, ya - 1);
        lemma_step(g, s, g.spec_idx(x, ya), g.spec_idx(x, ya - 1));
        lemma_v_walk(g, s, x, ya - 1, yb);
    }
}

/// Reachability survives turning more cells into Floor.
pub proof fn lemma_reachable_monotone(g1: Grid, g2: Grid, s: int, c: int)
    requires
        g1.width == g2.width,
        g1.tiles@.len() == g2.tiles@.len(),
        forall|i: int| is_floor(g1, i) ==> is_floor(g2, i),
        reachable(g1, s, c),
    ensures
        reachable(g2, s, c),
{
    let n = choose|n: nat| reachable_in(g1, s, c, n);
    lemma_reachable_in_monotone(g1, g2, s, c, n);
}

/// A reachable cell has a well-defined shortest distance, no larger than
/// any walk that witnesses its reachability.
pub proof fn lemma_spec_dist_exists(g: Grid, s: int, c: int, n: nat)
    requires
        reachable_in(g, s, c, n),
    ensures
        spec_dist_is(g, s, c, spec_dist(g, s, c)),
        spec_dist(g, s, c) <= n,
    decreases n,
{
    if exists|k: nat| k < n && #[trigger] reachable_in(g, s, c, k) {
        let k = choose|k: nat| k < n && #[trigger] reachable_in(g, s, c, k);
        lemma_spec_dist_exists(g, s, c, k);
    } else {
        assert(spec_dist_is(g, s, c, n));
        assert(spec_dist_is(g, s, c, spec_dist(g, s, c)));
        assert(reachable_in(g, s, c, n));
    }
}

/// Shortest distances are unique.
pub proof fn lemma_spec_dist_unique(g: Grid, s: int, c: int, d1: nat, d2: nat)
    requires
        spec_dist_is(g, s, c, d1),
        spec_dist_is(g, s, c, d2),
    ensures
        d1 == d2,
{
    assert(reachable_in(g, s, c, d1));
    assert(reachable_in(g, s, c, d2));
}

/// Coordinates of a valid point recompose through division and modulus.
pub proof fn lemma_coords_of_idx(g: Grid, x: int, y: int)
    requires
        g.wf(),
        g.spec_in_bounds(x, y),
    ensures
        valid_idx(g, g.spec_idx(x, y)),
        col(g, g.spec_idx(x, y)) == x,
        row(g, g.spec_idx(x, y)) == y,
{
    g.lemma_idx_in_range(x, y);
    vstd::arithmetic::div_mod::lemma_fundamental_div_mod_converse(
        g.spec_idx(x, y), g.width as int, y, x);
}

/// A sequence of pairwise-distinct indices into a buffer of `n` cells has
/// at most `n` entries.
proof fn lemma_distinct_bounded_len(q: Seq<usize>, n: int)
    requires
        0 <= n,
        forall|i: int, j: int| 0 <= i < j < q.len() ==> q[i] != q[j],
        forall|i: int| 0 <= i < q.len() ==> (#[trigger] q[i]) < n,
    ensures
        q.len() <= n,
{
    broadcast use vstd::seq_lib::group_seq_properties;
    broadcast use vstd::set::group_set_axioms;

    let qi = q.map_values(|v: usize| v as int);
    assert forall|i: int, j: int| 0 <= i < qi.len() && 0 <= j < qi.len() && i != j
        implies qi[i] != qi[j] by {
        assert(q[i] != q[j]);
    }
    qi.unique_seq_to_set();
    let range = vstd::set_lib::set_int_range(0, n);
    vstd::set_lib::lemma_int_range(0, n);
    assert(qi.to_set().subset_of(range)) by {
        assert forall|x: int| qi.to_set().contains(x) implies range.contains(x) by {
            assert(qi.contains(x));
            let i = choose|i: int| 0 <= i < qi.len() && qi[i] == x;
            assert(q[i] < n);
        }
    }
    vstd::set_lib::lemma_len_subset(qi.to_set(), range);
}

/// The working state of the flood: `dist` marks the cells found so far,
/// `queue` lists each marked cell exactly once in nondecreasing mark
/// order, the mark of the cell at queue slot `i` is at most `i`, and
/// every mark is witnessed by a walk of exactly that many steps.
pub open spec fn bfs_inv(g: Grid, s: int, dist: Seq<usize>, queue: Seq<usize>) -> bool {
    &&& dist.len() == g.tiles@.len()
    &&& forall|i: int| 0 <= i < queue.len() ==> (#[trigger] queue[i]) < g.tiles@.len()
    &&& forall|i: int| 0 <= i < queue.len()
        ==> dist[#[trigger] queue[i] as int] != UNREACHABLE && dist[queue[i] as int] <= i
    &&& forall|i: int, j: int| 0 <= i < j < queue.len() ==> queue[i] != queue[j]
    &&& forall|i: int, j: int| #![trigger queue[i], queue[j]] 0 <= i <= j < queue.len()
        ==> dist[queue[i] as int] <= dist[queue[j] as int]
    &&& forall|c: int| valid_idx(g, c) && #[trigger] dist[c] != UNREACHABLE
        ==> queue.contains(c as usize)
    &&& forall|c: int| valid_idx(g, c) && #[trigger] dist[c] != UNREACHABLE
        ==> reachable_in(g, s, c, dist[c] as nat)
}

/// Every Floor neighbor of each of the first `head` queue entries is
/// already marked, one step at most beyond its own mark.
pub open spec fn frontier_done(g: Grid, dist: Seq<usize>, queue: Seq<usize>, head: int) -> bool {
    forall|j: int, b: int| 0 <= j < head && #[trigger] adjacent(g, queue[j] as int, b)
        && is_floor(g, b)
        ==> dist[b] != UNREACHABLE && dist[b] <= dist[queue[j] as int] + 1
}

/// Mark one candidate cell with `nd` if it is an unmarked Floor cell.
fn visit(
    g: &Grid,
    dist: &mut Vec<usize>,
    queue: &mut Vec<usize>,
    nd: usize,
    b: usize,
    Ghost(s): Ghost<int>,
) -> (marked: bool)
    requires
        g.wf(),
        bfs_inv(*g, s, old(dist)@, old(queue)@),
        b < g.tiles@.len(),
        nd <= old(queue)@.len(),
        nd <= g.tiles@.len(),
        forall|i: int| 0 <= i < old(queue)@.len()
            ==> old(dist)@[#[trigger] old(queue)@[i] as int] <= nd,
        is_floor(*g, b as int) ==> reachable_in(*g, s, b as int, nd as nat),
    ensures
        bfs_inv(*g, s, final(dist)@, final(queue)@),
        is_floor(*g, b as int) ==> final(dist)@[b as int] != UNREACHABLE
            && final(dist)@[b as int] <= nd,
        forall|c: int| 0 <= c < final(dist)@.len() && old(dist)@[c] != UNREACHABLE
            ==> final(dist)@[c] == old(dist)@[c],
        final(dist)@.len() == old(dist)@.len(),
        old(queue)@.is_prefix_of(final(queue)@),
        forall|i: int| 0 <= i < final(queue)@.len()
            ==> final(dist)@[#[trigger] final(queue)@[i] as int] <= nd,
{
    proof {
        g.lemma_len_bound();
    }
    if self_floor(g, b) && dist[b] == UNREACHABLE {
        dist.set(b, nd);
        let ghost qbefore = queue@;
        queue.push(b);
        proof {
            assert(queue@ == qbefore.push(b));
            assert(queue@[qbefore.len() as int] == b);
            assert forall|i: int| 0 <= i < qbefore.len()
                implies queue@[i] == qbefore[i] by {}
            assert forall|c: int| valid_idx(*g, c) && #[trigger] dist@[c] != UNREACHABLE
                implies queue@.contains(c as usize) by {
                if c != b as int {
                    assert(old(dist)@[c] != UNREACHABLE);
                    assert(qbefore.contains(c as usize));
                }
            }
        }
        true
    } else {
        proof {
            if is_floor(*g, b as int) {
                assert(dist@[b as int] != UNREACHABLE);
                assert(queue@.contains(b));
                let i = choose|i: int| 0 <= i < queue@.len() && queue@[i] == b;
                assert(dist@[queue@[i] as int] <= nd);
            }
        }
        false
    }
}

/// Exec test for Floor at a valid index.
fn self_floor(g: &Grid, b: usize) -> (r: bool)
    requires
        g.wf(),
        b < g.tiles@.len(),
    ensures
        r == is_floor(*g, b as int),
{
    g.tiles[b] == TileType::Floor
}

/// Mark the four cardinal neighbors of `a` that are unmarked Floor cells
/// with a distance one beyond the mark of `a`.
fn expand(
    g: &Grid,
    dist: &mut Vec<usize>,
    queue: &mut Vec<usize>,
    a: usize,
    nd: usize,
    Ghost(s): Ghost<int>,
)
    requires
        g.wf(),
        bfs_inv(*g, s, old(dist)@, old(queue)@),
        a < g.tiles@.len(),
        old(dist)@[a as int] != UNREACHABLE,
        nd == old(dist)@[a as int] + 1,
        nd <= old(queue)@.len(),
        nd <= g.tiles@.len(),
        forall|i: int| 0 <= i < old(queue)@.len()
            ==> old(dist)@[#[trigger] old(queue)@[i] as int] <= nd,
    ensures
        bfs_inv(*g, s, final(dist)@, final(queue)@),
        forall|c: int| 0 <= c < final(dist)@.len() && old(dist)@[c] != UNREACHABLE
            ==> final(dist)@[c] == old(dist)@[c],
        final(dist)@.len() == old(dist)@.len(),
        old(queue)@.is_prefix_of(final(queue)@),
        forall|b: int| adjacent(*g, a as int, b) && is_floor(*g, b)
            ==> final(dist)@[b] != UNREACHABLE && final(dist)@[b] <= nd,
        forall|i: int| 0 <= i < final(queue)@.len()
            ==> final(dist)@[#[trigger] final(queue)@[i] as int] <= nd,
{
    let p = g.point_of(a);
    let ghost px = p.x as int;
    let ghost py = p.y as int;
    proof {
        assert(reachable_in(*g, s, a as int, old(dist)@[a as int] as nat));
        lemma_coords_of_idx(*g, px, py);
    }
    let mut went_left: bool = false;
    let mut went_right: bool = false;
    let mut went_up: bool = false;
    let mut went_down: bool = false;

    match g.try_idx(crate::grid::Point { x: p.x - 1, y: p.y }) {
        Some(b) => {
            proof {
                lemma_coords_of_idx(*g, px - 1, py);
                if is_floor(*g, b as int) {
                    lemma_step_in(*g, s, a as int, b as int, (nd - 1) as nat);
                }
            }
            visit(g, dist, queue, nd, b, Ghost(s));
            went_left = true;
        },
        None => {},
    }
    match g.try_idx(crate::grid::Point { x: p.x + 1, y: p.y }) {
        Some(b) => {
            proof {
                lemma_coords_of_idx(*g, px + 1, py);
                if is_floor(*g, b as int) {
                    lemma_step_in(*g, s, a as int, b as int, (nd - 1) as nat);
                }
            }
            visit(g, dist, queue, nd, b, Ghost(s));
            went_right = true;
        },
        None => {},
    }
    match g.try_idx(crate::grid::Point { x: p.x, y: p.y - 1 }) {
        Some(b) => {
            proof {
                lemma_coords_of_idx(*g, px, py - 1);
                if is_floor(*g, b as int) {
                    lemma_step_in(*g, s, a as int, b as int, (nd - 1) as nat);
                }
            }
            visit(g, dist, queue, nd, b, Ghost(s));
            went_up = true;
        },
        None => {},
    }
    match g.try_idx(crate::grid::Point { x: p.x, y: p.y + 1 }) {
        Some(b) => {
            proof {
                lemma_coords_of_idx(*g, px, py + 1);
                if is_floor(*g, b as int) {
                    lemma_step_in(*g, s, a as int, b as int, (nd - 1) as nat);
                }
            }
            visit(g, dist, queue, nd, b, Ghost(s));
            went_down = true;
        },
        None => {},
    }

    proof {
        assert forall|b: int| adjacent(*g, a as int, b) && is_floor(*g, b)
            implies dist@[b] != UNREACHABLE && dist@[b] <= nd by {
            let bx = col(*g, b);
            let by_ = row(*g, b);
            g.lemma_idx_decompose(b);
            if row(*g, a as int) == by_ && col(*g, a as int) == bx + 1 {
                assert(b == g.spec_idx(px - 1, py));
                assert(went_left);
            } else if row(*g, a as int) == by_ && bx == col(*g, a as int) + 1 {
                assert(b == g.spec_idx(px + 1, py));
                assert(went_right);
            } else if col(*g, a as int) == bx && row(*g, a as int) == by_ + 1 {
                assert(b == g.spec_idx(px, py - 1));
                assert(went_up);
            } else {
                assert(col(*g, a as int) == bx && by_ == row(*g, a as int) + 1);
                assert(b == g.spec_idx(px, py + 1));
                assert(went_down);
            }
        }
    }
}

/// The distance field: shortest-step flood from `start` over Floor cells.
/// A cell holds a finite value exactly when it is reachable from `start`
/// by Floor-to-Floor cardinal steps, and that value is exactly the
/// shortest-walk distance; all other cells hold the sentinel.
pub fn distance_field(g: &Grid, start: usize) -> (dist: Vec<usize>)
    requires
        g.wf(),
        start < g.tiles@.len(),
    ensures
        dist@.len() == g.tiles@.len(),
        dist@[start as int] == 0,
        forall|c: int| valid_idx(*g, c)
            ==> ((#[trigger] dist@[c]) != UNREACHABLE <==> reachable(*g, start as int, c)),
        forall|c: int| valid_idx(*g, c) && (#[trigger] dist@[c]) != UNREACHABLE
            ==> spec_dist_is(*g, start as int, c, dist@[c] as nat)
                && dist@[c] == spec_dist(*g, start as int, c),
{
    proof {
        g.lemma_len_bound();
    }
    let n: usize = g.tiles.len();
    let mut dist: Vec<usize> = Vec::new();
    let mut i: usize = 0;
    while i < n
        invariant
            i <= n,
            dist@.len() == i,
            forall|j: int| 0 <= j < i ==> dist@[j] == UNREACHABLE,
        decreases n - i,
    {
        dist.push(UNREACHABLE);
        i = i + 1;
    }
    dist.set(start, 0);
    let mut queue: Vec<usize> = Vec::new();
    queue.push(start);
    let mut head: usize = 0;
    proof {
        assert(queue@[0] == start);
        assert(reachable_in(*g, start as int, start as int, 0));
        assert forall|c: int| valid_idx(*g, c) && #[trigger] dist@[c] != UNREACHABLE
            implies queue@.contains(c as usize) by {
            assert(c == start as int);
            assert(queue@[0] == c as usize);
        }
    }
    while head < queue.len()
        invariant
            g.wf(),
            start < g.tiles@.len(),
            g.tiles@.len() == n,
            bfs_inv(*g, start as int, dist@, queue@),
            head <= queue@.len(),
            dist@[start as int] == 0,
            frontier_done(*g, dist@, queue@, head as int),
            forall|i: int| 0 <= i < queue@.len() && head < queue@.len()
                ==> dist@[#[trigger] queue@[i] as int]
                    <= dist@[queue@[head as int] as int] + 1,
        decreases n - head,
    {
        proof {
            lemma_distinct_bounded_len(queue@, n as int);
        }
        let a = queue[head];
        let ad = dist[a];
        let nd = ad + 1;
        let ghost qold = queue@;
        let ghost dold = dist@;
        expand(g, &mut dist, &mut queue, a, nd, Ghost(start as int));
        proof {
            assert forall|j: int, b: int| 0 <= j < head + 1
                && #[trigger] adjacent(*g, queue@[j] as int, b) && is_floor(*g, b)
                implies dist@[b] != UNREACHABLE
                    && dist@[b] <= dist@[queue@[j] as int] + 1 by {
                assert(queue@[j] == qold[j]);
                if j < head {
                    assert(dold[b] != UNREACHABLE);
                    assert(dold[b] <= dold[qold[j] as int] + 1);
                    assert(dold[qold[j] as int] != UNREACHABLE);
                } else {
                    assert(dold[qold[j] as int] == ad);
                }
            }
            assert forall|i: int| 0 <= i < queue@.len() && head + 1 < queue@.len()
                implies dist@[#[trigger] queue@[i] as int]
                    <= dist@[queue@[head + 1] as int] + 1 by {
                assert(queue@[head as int] == qold[head as int]);
                assert(dist@[queue@[head as int] as int] == ad);
                assert(dist@[queue@[head as int] as int]
                    <= dist@[queue@[head + 1] as int]);
                assert(dist@[queue@[i] as int] <= nd);
            }
        }
        head = head + 1;
    }
    proof {
        let s = start as int;
        assert forall|a: int, b: int| valid_idx(*g, a) && dist@[a] != UNREACHABLE
            && #[trigger] adjacent(*g, a, b) && is_floor(*g, b)
            implies dist@[b] != UNREACHABLE && dist@[b] <= dist@[a] + 1 by {
            assert(queue@.contains(a as usize));
            let j = choose|j: int| 0 <= j < queue@.len() && queue@[j] == a as usize;
            assert(adjacent(*g, queue@[j] as int, b));
        }
        assert forall|c: int| valid_idx(*g, c) && reachable(*g, s, c)
            implies dist@[c] != UNREACHABLE by {
            let k = choose|k: nat| reachable_in(*g, s, c, k);
            lemma_dist_lower(*g, s, dist@, c, k);
        }
        assert forall|c: int| valid_idx(*g, c) && (#[trigger] dist@[c]) != UNREACHABLE
            implies spec_dist_is(*g, s, c, dist@[c] as nat)
                && dist@[c] == spec_dist(*g, s, c) by {
            assert(reachable_in(*g, s, c, dist@[c] as nat));
            assert forall|k: nat| k < dist@[c] as nat
                implies !#[trigger] reachable_in(*g, s, c, k) by {
                if reachable_in(*g, s, c, k) {
                    lemma_dist_lower(*g, s, dist@, c, k);
                }
            }
            lemma_spec_dist_exists(*g, s, c, dist@[c] as nat);
            lemma_spec_dist_unique(*g, s, c, dist@[c] as nat, spec_dist(*g, s, c));
        }
    }
    dist
}

/// If the marked set contains the source at mark zero and every Floor
/// step out of a marked cell raises the mark by at most one, then every
/// walk of `k` steps ends on a cell marked at most `k`.
proof fn lemma_dist_lower(g: Grid, s: int, dist: Seq<usize>, c: int, k: nat)
    requires
        dist.len() == g.tiles@.len(),
        valid_idx(g, s),
        dist[s] == 0,
        forall|a: int, b: int| valid_idx(g, a) && dist[a] != UNREACHABLE
            && #[trigger] adjacent(g, a, b) && is_floor(g, b)
            ==> dist[b] != UNREACHABLE && dist[b] <= dist[a] + 1,
        reachable_in(g, s, c, k),
    ensures
        dist[c] != UNREACHABLE,
        dist[c] <= k,
    decreases k,
{
    if c != s {
        let a = choose|a: int|
            reachable_in(g, s, a, (k - 1) as nat) && #[trigger] adjacent(g, a, c) && is_floor(g, c);
        lemma_dist_lower(g, s, dist, a, (k - 1) as nat);
    }
}

/// The reachable cell of greatest distance, lowest index winning ties.
pub fn farthest_index(dist: &Vec<usize>) -> (m: usize)
    requires
        dist@.len() >= 1,
        exists|c: int| 0 <= c < dist@.len() && dist@[c] != UNREACHABLE,
    ensures
        m < dist@.len(),
        dist@[m as int] != UNREACHABLE,
        forall|c: int| 0 <= c < dist@.len() && (#[trigger] dist@[c]) != UNREACHABLE
            ==> dist@[c] <= dist@[m as int],
        forall|c: int| 0 <= c < m ==> (#[trigger] dist@[c]) == UNREACHABLE
            || dist@[c] < dist@[m as int],
{
    let n: usize = dist.len();
    let mut m: usize = 0;
    let mut found: bool = false;
    let mut i: usize = 0;
    while i < n
        invariant
            i <= n,
            dist@.len() == n,
            !found ==> forall|c: int| 0 <= c < i ==> (#[trigger] dist@[c]) == UNREACHABLE,
            found ==> m < i && dist@[m as int] != UNREACHABLE,
            found ==> forall|c: int| 0 <= c < i && (#[trigger] dist@[c]) != UNREACHABLE
                ==> dist@[c] <= dist@[m as int],
            found ==> forall|c: int| 0 <= c < m ==> (#[trigger] dist@[c]) == UNREACHABLE
                || dist@[c] < dist@[m as int],
        decreases n - i,
    {
        let d = dist[i];
        if d != UNREACHABLE && (!found || d > dist[m]) {
            m = i;
            found = true;
        }
        i = i + 1;
    }
    m
}

} // verus!
