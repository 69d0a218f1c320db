//! The gold collector: a breadth-first flood fill from the player's
//! position through floor and gold tiles. It returns the number of gold
//! tiles reached, the cells in the order they were processed, and the
//! discovery edges of the traversal, so that a consumer can replay the
//! exploration step by step without the traversal depending on any sink.

use vstd::prelude::*;

use crate::grid::{
    adjacent, cell_count, component, gold_component, grid_of, in_bounds,
    lemma_adjacent_cases, lemma_closed_contains_component, lemma_distinct_positions_bounded,
    lemma_reachable_in_bounds, lemma_reachable_self, lemma_reachable_step, reachable, step_ok,
    tile_at, Pos,
};
use crate::tile::Tile;

verus! {

broadcast use vstd::seq_lib::lemma_seq_contains_after_push;

/// What one traversal returns.
pub struct Traversal {
    /// How many distinct gold tiles the flood fill reached.
    pub gold: usize,
    /// Every cell the traversal processed, in first-in first-out order,
    /// beginning with the start cell; each cell appears at most once.
    pub visits: Vec<(usize, usize)>,
    /// The discovery edges: one per visited cell except the start, from
    /// the cell being processed to the neighbor it discovered, in
    /// discovery order.
    pub edges: Vec<((usize, usize), (usize, usize))>,
}

/// How many positions of `s` hold gold.
pub open spec fn gold_count(g: Seq<Seq<Tile>>, s: Seq<Pos>) -> nat
    decreases s.len(),
{
    if s.len() == 0 {
        0
    } else {
        gold_count(g, s.drop_last()) + if tile_at(g, s.last()) is Gold {
            1nat
        } else {
            0nat
        }
    }
}

/// The gold positions among the members of `s`.
pub open spec fn visited_golds(g: Seq<Seq<Tile>>, s: Seq<Pos>) -> Set<Pos> {
    Set::new(|p: Pos| s.contains(p) && tile_at(g, p) is Gold)
}

/// One discovery attempt: when the step from `cur` to `nb` is allowed and
/// `nb` is not yet enqueued, `nb` joins the queue and the discovery edge
/// is recorded; otherwise the state is unchanged. The state is the pair
/// of the queue so far and the edges so far.
pub open spec fn discover(
    g: Seq<Seq<Tile>>,
    st: (Seq<Pos>, Seq<(Pos, Pos)>),
    cur: Pos,
    nb: Pos,
) -> (Seq<Pos>, Seq<(Pos, Pos)>) {
    if step_ok(g, cur, nb) && !st.0.contains(nb) {
        (st.0.push(nb), st.1.push((cur, nb)))
    } else {
        st
    }
}

/// Process one cell: try its four neighbors in the fixed compass order
/// down, right, up, left — the order that makes the traversal's discovery
/// sequence deterministic.
pub open spec fn process_cell(
    g: Seq<Seq<Tile>>,
    st: (Seq<Pos>, Seq<(Pos, Pos)>),
    cur: Pos,
) -> (Seq<Pos>, Seq<(Pos, Pos)>) {
    let s1 = discover(g, st, cur, (cur.0, (cur.1 + 1) as usize));
    let s2 = discover(g, s1, cur, ((cur.0 + 1) as usize, cur.1));
    let s3 = if cur.1 > 0 {
        discover(g, s2, cur, (cur.0, (cur.1 - 1) as usize))
    } else {
        s2
    };
    if cur.0 > 0 {
        discover(g, s3, cur, ((cur.0 - 1) as usize, cur.1))
    } else {
        s3
    }
}

/// The rest of the flood fill, cell by cell from position `head` of the
/// queue. `fuel` only bounds the recursion; every run the library makes
/// has fuel to spare, since each processed cell is a distinct grid cell.
pub open spec fn bfs_run(
    g: Seq<Seq<Tile>>,
    q: Seq<Pos>,
    e: Seq<(Pos, Pos)>,
    head: int,
    fuel: nat,
) -> (Seq<Pos>, Seq<(Pos, Pos)>)
    decreases fuel,
{
    if head >= q.len() || fuel == 0 {
        (q, e)
    } else {
        let st = process_cell(g, (q, e), q[head]);
        bfs_run(g, st.0, st.1, head + 1, (fuel - 1) as nat)
    }
}

/// The exact outcome of the flood fill from `start`: the cells in
/// processing order and the discovery edges, a function of the grid and
/// the start alone.
pub open spec fn bfs_traversal(g: Seq<Seq<Tile>>, start: Pos) -> (Seq<Pos>, Seq<(Pos, Pos)>) {
    bfs_run(g, seq![start], Seq::<(Pos, Pos)>::empty(), 0, cell_count(g))
}

/// The queue's invariant during the flood fill: it begins at the start,
/// holds each cell at most once, holds only on-grid reachable cells, and
/// its tail is in step with the discovery edges.
spec fn queue_inv(g: Seq<Seq<Tile>>, start: Pos, q: Seq<Pos>, edges: Seq<(Pos, Pos)>) -> bool {
    &&& q.len() >= 1
    &&& q[0] == start
    &&& q.no_duplicates()
    &&& forall|j: int| 0 <= j < q.len() ==> in_bounds(g, #[trigger] q[j])
    &&& forall|j: int| 0 <= j < q.len() ==> reachable(g, start, #[trigger] q[j])
    &&& edges.len() + 1 == q.len()
    &&& forall|k: int|
        0 <= k < edges.len() ==> {
            &&& (#[trigger] edges[k]).1 == q[k + 1]
            &&& step_ok(g, edges[k].0, edges[k].1)
            &&& q.contains(edges[k].0)
        }
}

/// `b` extends `a` at the back: it keeps every indexed element of `a`.
spec fn grew_from(b: Seq<Pos>, a: Seq<Pos>) -> bool {
    a.len() <= b.len() && (forall|i: int| 0 <= i < a.len() ==> a[i] == #[trigger] b[i])
}

proof fn lemma_grew_contains(a: Seq<Pos>, b: Seq<Pos>)
    requires
        grew_from(b, a),
    ensures
        forall|x: Pos| a.contains(x) ==> #[trigger] b.contains(x),
{
    assert forall|x: Pos| a.contains(x) implies #[trigger] b.contains(x) by {
        let i = choose|i: int| 0 <= i < a.len() && a[i] == x;
        assert(b[i] == a[i]);
        assert(b.contains(b[i]));
    }
}

proof fn lemma_grew_trans(c: Seq<Pos>, b: Seq<Pos>, a: Seq<Pos>)
    requires
        grew_from(b, a),
        grew_from(c, b),
    ensures
        grew_from(c, a),
{
    assert forall|i: int| 0 <= i < a.len() implies a[i] == #[trigger] c[i] by {
        assert(a[i] == b[i]);
        assert(b[i] == c[i]);
    }
}

proof fn lemma_push_no_duplicates<A>(s: Seq<A>, v: A)
    requires
        s.no_duplicates(),
        !s.contains(v),
    ensures
        s.push(v).no_duplicates(),
{
    assert forall|i: int, j: int|
        0 <= i < s.push(v).len() && 0 <= j < s.push(v).len() && i != j implies s.push(v)[i]
        != s.push(v)[j] by {
        if i == s.len() {
            assert(s.contains(s[j]));
        } else if j == s.len() {
            assert(s.contains(s[i]));
        }
    }
}

/// Pushing one discovered neighbor keeps the queue's invariant.
proof fn lemma_queue_push(
    g: Seq<Seq<Tile>>,
    start: Pos,
    q: Seq<Pos>,
    edges: Seq<(Pos, Pos)>,
    cur: Pos,
    nb: Pos,
)
    requires
        queue_inv(g, start, q, edges),
        q.contains(cur),
        step_ok(g, cur, nb),
        !q.contains(nb),
    ensures
        queue_inv(g, start, q.push(nb), edges.push((cur, nb))),
        grew_from(q.push(nb), q),
        q.push(nb).contains(nb),
{
    let j = choose|j: int| 0 <= j < q.len() && q[j] == cur;
    assert(reachable(g, start, q[j]));
    lemma_reachable_step(g, start, cur, nb);
    lemma_push_no_duplicates(q, nb);
    let q2 = q.push(nb);
    let e2 = edges.push((cur, nb));
    assert forall|k: int| 0 <= k < e2.len() implies {
        &&& (#[trigger] e2[k]).1 == q2[k + 1]
        &&& step_ok(g, e2[k].0, e2[k].1)
        &&& q2.contains(e2[k].0)
    } by {
        if k < edges.len() {
            assert(e2[k] == edges[k]);
            assert(q2[k + 1] == q[k + 1]);
            assert(q.contains(edges[k].0));
        } else {
            assert(e2[k] == (cur, nb));
            assert(q2[k + 1] == nb);
        }
    }
}

/// The golds among a duplicate-free sequence, counted in order, are as
/// many as they are as a set.
pub proof fn lemma_gold_count_is_gold_set(g: Seq<Seq<Tile>>, s: Seq<Pos>)
    requires
        s.no_duplicates(),
    ensures
        visited_golds(g, s).finite(),
        gold_count(g, s) == visited_golds(g, s).len(),
    decreases s.len(),
{
    if s.len() == 0 {
        assert(visited_golds(g, s) =~= Set::<Pos>::empty());
    } else {
        let rest = s.drop_last();
        let last = s.last();
        assert(rest.no_duplicates());
        lemma_gold_count_is_gold_set(g, rest);
        assert(s =~= rest.push(last));
        assert(!rest.contains(last)) by {
            if rest.contains(last) {
                let i = choose|i: int| 0 <= i < rest.len() && rest[i] == last;
                assert(s[i] == s[s.len() - 1]);
            }
        }
        if tile_at(g, last) is Gold {
            assert(visited_golds(g, s) =~= visited_golds(g, rest).insert(last));
            assert(!visited_golds(g, rest).contains(last));
        } else {
            assert(visited_golds(g, s) =~= visited_golds(g, rest));
        }
    }
}

/// A duplicate-free visit of exactly the component has the component's
/// size, and its golds are exactly the gold component.
pub proof fn lemma_visits_component(g: Seq<Seq<Tile>>, start: Pos, v: Seq<Pos>)
    requires
        v.no_duplicates(),
        forall|p: Pos| v.contains(p) <==> reachable(g, start, p),
    ensures
        component(g, start).finite(),
        component(g, start) == v.to_set(),
        v.len() == component(g, start).len(),
        gold_component(g, start).finite(),
        visited_golds(g, v) == gold_component(g, start),
        gold_count(g, v) == gold_component(g, start).len(),
{
    vstd::seq_lib::seq_to_set_is_finite(v);
    v.unique_seq_to_set();
    assert(component(g, start) =~= v.to_set());
    lemma_gold_count_is_gold_set(g, v);
    assert(visited_golds(g, v) =~= gold_component(g, start));
}

/// Discover one neighbor: when the step to `nb` is allowed and `nb` was
/// not yet enqueued, record the discovery edge and enqueue it; otherwise
/// change nothing.
fn try_enqueue(
    map: &Vec<Vec<Tile>>,
    q: &mut Vec<(usize, usize)>,
    edges: &mut Vec<((usize, usize), (usize, usize))>,
    cur: (usize, usize),
    nb: (usize, usize),
)
    requires
        adjacent(cur, nb),
    ensures
        ({
            let g = grid_of(map@);
            if step_ok(g, cur, nb) && !old(q)@.contains(nb) {
                final(q)@ == old(q)@.push(nb) && final(edges)@ == old(edges)@.push((cur, nb))
            } else {
                final(q)@ == old(q)@ && final(edges)@ == old(edges)@
            }
        }),
{
    let ghost g = grid_of(map@);
    if nb.1 < map.len() {
        let row = &map[nb.1];
        proof {
            assert(g[nb.1 as int] == map@[nb.1 as int]@);
        }
        if nb.0 < row.len() {
            let t = row[nb.0];
            proof {
                assert(t == tile_at(g, nb));
            }
            if t == Tile::Floor || t == Tile::Gold {
                let mut i: usize = 0;
                let n = q.len();
                while i < n
                    invariant
                        i <= n,
                        n == q@.len(),
                        q@ == old(q)@,
                        edges@ == old(edges)@,
                        forall|j: int| 0 <= j < i ==> q@[j] != nb,
                    decreases n - i,
                {
                    let c = q[i];
                    if c.0 == nb.0 && c.1 == nb.1 {
                        proof {
                            assert(q@[i as int] == nb);
                            assert(q@.contains(q@[i as int]));
                        }
                        return ;
                    }
                    i = i + 1;
                }
                proof {
                    assert(!q@.contains(nb));
                    assert(step_ok(g, cur, nb));
                }
                edges.push((cur, nb));
                q.push(nb);
            }
        }
    }
}

/// The gold collector.
///
/// Starting from `start`, explore outward through 4-connected neighbors
/// whose tile is floor or gold (walls and traps block and are never
/// enqueued), each cell at most once, in first-in first-out order with
/// neighbors tried down, right, up, left. The result holds the number of
/// distinct gold tiles of the start's connected component — the start's
/// own tile included if it is gold — together with the cells in
/// processing order and the discovery edges of the traversal.
#[verifier::loop_isolation(false)]
#[verifier::rlimit(60)]
pub fn collect_gold(map: &Vec<Vec<Tile>>, start: (usize, usize)) -> (r: Traversal)
    requires
        in_bounds(grid_of(map@), start),
    ensures
        ({
            let g = grid_of(map@);
            &&& r.visits@.len() >= 1
            &&& r.visits@[0] == start
            &&& r.visits@.no_duplicates()
            &&& forall|p: Pos| r.visits@.contains(p) <==> reachable(g, start, p)
            &&& component(g, start).finite()
            &&& r.visits@.len() == component(g, start).len()
            &&& gold_component(g, start).finite()
            &&& r.gold == gold_count(g, r.visits@)
            &&& r.gold == gold_component(g, start).len()
            &&& r.gold <= r.visits@.len()
            &&& (r.visits@, r.edges@) == bfs_traversal(g, start)
            &&& r.edges@.len() + 1 == r.visits@.len()
            &&& forall|k: int|
                0 <= k < r.edges@.len() ==> {
                    &&& (#[trigger] r.edges@[k]).1 == r.visits@[k + 1]
                    &&& step_ok(g, r.edges@[k].0, r.edges@[k].1)
                    &&& r.visits@.contains(r.edges@[k].0)
                }
        }),
{
    let ghost g = grid_of(map@);
    let mut q: Vec<(usize, usize)> = Vec::new();
    let mut edges: Vec<((usize, usize), (usize, usize))> = Vec::new();
    let mut gold: usize = 0;
    let mut head: usize = 0;

    proof {
        assert forall|y: int| 0 <= y < g.len() implies (#[trigger] g[y]).len() <= usize::MAX by {
            assert(g[y] == map@[y]@);
            assert(map@[y].len() == map@[y]@.len());
        }
        assert(map.len() == map@.len());
    }

    q.push(start);
    proof {
        lemma_reachable_self(g, start);
        assert(q@[0] == start);
        assert(queue_inv(g, start, q@, edges@));
        lemma_distinct_positions_bounded(g, q@);
        assert(q@.take(0) =~= Seq::<Pos>::empty());
        assert(q@ =~= seq![start]);
        assert(edges@ =~= Seq::<(Pos, Pos)>::empty());
    }

    while head < q.len()
        invariant
            queue_inv(g, start, q@, edges@),
            head <= q@.len(),
            q@.len() <= cell_count(g),
            forall|j: int, b: Pos|
                0 <= j < head && #[trigger] step_ok(g, q@[j], b) ==> q@.contains(b),
            gold <= head,
            gold as nat == gold_count(g, q@.take(head as int)),
            bfs_run(g, q@, edges@, head as int, (cell_count(g) - head) as nat)
                == bfs_traversal(g, start),
        decreases cell_count(g) - head,
    {
        let cur = q[head];
        let x = cur.0;
        let y = cur.1;
        proof {
            assert(q@[head as int] == cur);
            assert(q@.contains(cur));
            assert(in_bounds(g, cur));
            assert(reachable(g, start, cur));
            assert(g[y as int] == map@[y as int]@);
        }
        let row = &map[y];
        let t = row[x];
        proof {
            assert(t == tile_at(g, cur));
        }
        if t == Tile::Gold {
            gold = gold + 1;
        }

        let ghost q0 = q@;
        let ghost e0 = edges@;
        let ghost up_p: Pos = (x, (y - 1) as usize);
        let ghost left_p: Pos = ((x - 1) as usize, y);

        // neighbors in compass order: down, right, up, left
        let down = (x, y + 1);
        try_enqueue(map, &mut q, &mut edges, cur, down);
        proof {
            if step_ok(g, cur, down) && !q0.contains(down) {
                lemma_queue_push(g, start, q0, e0, cur, down);
            }
            assert(grew_from(q@, q0));
            lemma_grew_contains(q0, q@);
            assert(q@.contains(down) || !step_ok(g, cur, down));
            assert(q@.contains(cur));
        }
        let ghost q1 = q@;
        let ghost e1 = edges@;

        let right = (x + 1, y);
        try_enqueue(map, &mut q, &mut edges, cur, right);
        proof {
            if step_ok(g, cur, right) && !q1.contains(right) {
                lemma_queue_push(g, start, q1, e1, cur, right);
            }
            assert(grew_from(q@, q1));
            lemma_grew_contains(q1, q@);
            lemma_grew_trans(q@, q1, q0);
            assert(q@.contains(down) || !step_ok(g, cur, down));
            assert(q@.contains(right) || !step_ok(g, cur, right));
            assert(q@.contains(cur));
        }
        let ghost q2 = q@;
        let ghost e2 = edges@;

        if y > 0 {
            let up = (x, y - 1);
            proof {
                assert(up == up_p);
            }
            try_enqueue(map, &mut q, &mut edges, cur, up);
            proof {
                if step_ok(g, cur, up_p) && !q2.contains(up_p) {
                    lemma_queue_push(g, start, q2, e2, cur, up_p);
                }
            }
        }
        proof {
            assert(grew_from(q@, q2));
            lemma_grew_contains(q2, q@);
            lemma_grew_trans(q@, q2, q0);
            assert(q@.contains(down) || !step_ok(g, cur, down));
            assert(q@.contains(right) || !step_ok(g, cur, right));
            assert(y == 0 || q@.contains(up_p) || !step_ok(g, cur, up_p));
            assert(q@.contains(cur));
        }
        let ghost q3 = q@;
        let ghost e3 = edges@;

        if x > 0 {
            let left = (x - 1, y);
            proof {
                assert(left == left_p);
            }
            try_enqueue(map, &mut q, &mut edges, cur, left);
            proof {
                if step_ok(g, cur, left_p) && !q3.contains(left_p) {
                    lemma_queue_push(g, start, q3, e3, cur, left_p);
                }
            }
        }
        proof {
            assert(grew_from(q@, q3));
            lemma_grew_contains(q3, q@);
            lemma_grew_trans(q@, q3, q0);
            lemma_grew_contains(q0, q@);
            assert(q@.contains(down) || !step_ok(g, cur, down));
            assert(q@.contains(right) || !step_ok(g, cur, right));
            assert(y == 0 || q@.contains(up_p) || !step_ok(g, cur, up_p));
            assert(x == 0 || q@.contains(left_p) || !step_ok(g, cur, left_p));

            // the queue stays within the grid's cells
            lemma_distinct_positions_bounded(g, q@);

            // every allowed step out of a processed cell stays enqueued
            assert forall|j: int, b: Pos|
                0 <= j < head as int + 1 && #[trigger] step_ok(g, q@[j], b) implies q@.contains(
                b,
            ) by {
                assert(q@[j] == q0[j]);
                if j < head as int {
                    assert(step_ok(g, q0[j], b));
                    assert(q0.contains(b));
                } else {
                    assert(q@[j] == cur);
                    lemma_adjacent_cases(cur, b);
                    if b.0 == cur.0 && b.1 == cur.1 + 1 {
                        assert(b == down);
                    } else if b.0 == cur.0 + 1 && b.1 == cur.1 {
                        assert(b == right);
                    } else if b.0 == cur.0 && cur.1 == b.1 + 1 {
                        assert(y > 0);
                        assert(b == up_p);
                    } else {
                        assert(x > 0);
                        assert(b == left_p);
                    }
                }
            }

            // the gold counted so far is the gold among the processed cells
            assert(q@.take(head as int + 1) =~= q0.take(head as int).push(cur));
            assert(q@.take(head as int + 1).drop_last() =~= q0.take(head as int));
            assert(gold as nat == gold_count(g, q@.take(head as int + 1)));

            // the step taken is exactly one round of the traversal's definition
            assert(down == (cur.0, (cur.1 + 1) as usize));
            assert(right == ((cur.0 + 1) as usize, cur.1));
            assert((q1, e1) == discover(g, (q0, e0), cur, down));
            assert((q2, e2) == discover(g, (q1, e1), cur, right));
            if y > 0 {
                assert(up_p == (cur.0, (cur.1 - 1) as usize));
                assert((q3, e3) == discover(g, (q2, e2), cur, up_p));
            } else {
                assert((q3, e3) == (q2, e2));
            }
            if x > 0 {
                assert(left_p == ((cur.0 - 1) as usize, cur.1));
                assert((q@, edges@) == discover(g, (q3, e3), cur, left_p));
            } else {
                assert((q@, edges@) == (q3, e3));
            }
            assert((q@, edges@) == process_cell(g, (q0, e0), cur));
            assert(head < q0.len() && q0[head as int] == cur);
            assert(cell_count(g) - head >= 1);
            assert(bfs_run(g, q0, e0, head as int, (cell_count(g) - head) as nat) == bfs_run(
                g,
                q@,
                edges@,
                head as int + 1,
                (cell_count(g) - head - 1) as nat,
            ));
        }
        head = head + 1;
    }

    proof {
        assert(head == q@.len());
        assert(q@.take(q@.len() as int) =~= q@);
        assert(bfs_run(g, q@, edges@, head as int, (cell_count(g) - head) as nat) == (q@, edges@));

        // what the queue holds is exactly the component
        assert forall|p: Pos| q@.contains(p) implies reachable(g, start, p) by {
            let j = choose|j: int| 0 <= j < q@.len() && q@[j] == p;
            assert(reachable(g, start, q@[j]));
        }
        assert(q@.contains(q@[0]));
        assert(q@.to_set().contains(start));
        assert forall|a: Pos, b: Pos|
            q@.to_set().contains(a) && #[trigger] step_ok(g, a, b) implies q@.to_set().contains(
            b,
        ) by {
            let j = choose|j: int| 0 <= j < q@.len() && q@[j] == a;
            assert(step_ok(g, q@[j], b));
            assert(q@.contains(b));
        }
        lemma_closed_contains_component(g, start, q@.to_set());
        assert forall|p: Pos| q@.contains(p) <==> reachable(g, start, p) by {
            if reachable(g, start, p) {
                assert(q@.to_set().contains(p));
            }
        }
        lemma_visits_component(g, start, q@);
    }

    Traversal { gold, visits: q, edges }
}

/// Law: on a map without gold the traversal has nothing to count — the
/// gold component of any on-grid start is empty, whatever the walls,
/// floors and traps around it.
pub proof fn lemma_no_gold_zero_count(g: Seq<Seq<Tile>>, start: Pos)
    requires
        in_bounds(g, start),
        forall|p: Pos| in_bounds(g, p) ==> !((#[trigger] tile_at(g, p)) is Gold),
    ensures
        gold_component(g, start) =~= Set::<Pos>::empty(),
        gold_component(g, start).len() == 0,
{
    assert forall|p: Pos| !gold_component(g, start).contains(p) by {
        if reachable(g, start, p) {
            lemma_reachable_in_bounds(g, start, p);
        }
    }
    assert(gold_component(g, start) =~= Set::<Pos>::empty());
}

/// Law: gold that cannot be reached is never counted: a position outside
/// the component is outside the gold component, whose size is what the
/// traversal returns.
pub proof fn lemma_unreachable_gold_uncounted(g: Seq<Seq<Tile>>, start: Pos, p: Pos)
    requires
        !reachable(g, start, p),
    ensures
        !component(g, start).contains(p),
        !gold_component(g, start).contains(p),
{
}

/// Law: running the traversal twice on the same grid and start yields the
/// same count, the same visit sequence, and the same edge sequence: each
/// run's visits and edges equal the one traversal that the grid and the
/// start determine, and its count is the gold among those visits.
pub proof fn lemma_traversal_idempotent(
    g: Seq<Seq<Tile>>,
    start: Pos,
    v1: Seq<Pos>,
    e1: Seq<(Pos, Pos)>,
    n1: nat,
    v2: Seq<Pos>,
    e2: Seq<(Pos, Pos)>,
    n2: nat,
)
    requires
        (v1, e1) == bfs_traversal(g, start),
        n1 == gold_count(g, v1),
        (v2, e2) == bfs_traversal(g, start),
        n2 == gold_count(g, v2),
    ensures
        v1 == v2,
        e1 == e2,
        n1 == n2,
{
}

} // verus!
