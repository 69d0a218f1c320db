//! The mathematical model of the map: a grid is a sequence of rows of
//! tiles, a position is a `(column, row)` pair, and reachability is the
//! existence of a path of 4-connected steps through traversable tiles.

use vstd::prelude::*;

use crate::tile::Tile;

verus! {

/// A position on the map: `(column, row)`.
pub type Pos = (usize, usize);

/// The abstract grid held by a vector of rows.
pub open spec fn grid_of(m: Seq<Vec<Tile>>) -> Seq<Seq<Tile>> {
    m.map_values(|row: Vec<Tile>| row@)
}

/// A position lies on the grid. Rows may differ in length if the input was
/// malformed, so the column bound is that of the position's own row.
pub open spec fn in_bounds(g: Seq<Seq<Tile>>, p: Pos) -> bool {
    p.1 < g.len() && p.0 < g[p.1 as int].len()
}

/// The tile at a position.
pub open spec fn tile_at(g: Seq<Seq<Tile>>, p: Pos) -> Tile {
    g[p.1 as int][p.0 as int]
}

/// Two positions are 4-connected: they differ by one in exactly one
/// coordinate.
pub open spec fn adjacent(a: Pos, b: Pos) -> bool {
    ||| a.0 == b.0 && (b.1 == a.1 + 1 || a.1 == b.1 + 1)
    ||| a.1 == b.1 && (b.0 == a.0 + 1 || a.0 == b.0 + 1)
}

/// One traversal step from `a` to `b` is allowed: `b` is a 4-connected
/// neighbor that lies on the grid and can be walked through.
pub open spec fn step_ok(g: Seq<Seq<Tile>>, a: Pos, b: Pos) -> bool {
    adjacent(a, b) && in_bounds(g, b) && tile_at(g, b).is_traversable()
}

/// `path` leads from `start` to `end`: it begins at `start`, ends at `end`,
/// and every consecutive pair is an allowed step.
pub open spec fn is_path(g: Seq<Seq<Tile>>, start: Pos, path: Seq<Pos>, end: Pos) -> bool {
    &&& path.len() >= 1
    &&& path[0] == start
    &&& path[path.len() - 1] == end
    &&& forall|i: int| 0 <= i < path.len() - 1 ==> #[trigger] step_ok(g, path[i], path[i + 1])
}

/// `p` can be reached from `start` by some path of allowed steps. The start
/// itself is always reachable (by the one-element path), whatever its tile.
pub open spec fn reachable(g: Seq<Seq<Tile>>, start: Pos, p: Pos) -> bool {
    exists|path: Seq<Pos>| is_path(g, start, path, p)
}

/// The connected component of `start`: every position reachable from it.
pub open spec fn component(g: Seq<Seq<Tile>>, start: Pos) -> Set<Pos> {
    Set::new(|p: Pos| reachable(g, start, p))
}

/// The gold positions of the component: what the traversal is to count.
pub open spec fn gold_component(g: Seq<Seq<Tile>>, start: Pos) -> Set<Pos> {
    Set::new(|p: Pos| reachable(g, start, p) && tile_at(g, p) is Gold)
}

/// Every position of the grid.
pub open spec fn all_positions(g: Seq<Seq<Tile>>) -> Set<Pos> {
    Set::new(|p: Pos| in_bounds(g, p))
}

/// The number of cells of the grid: the sum of the row lengths.
pub open spec fn cell_count(g: Seq<Seq<Tile>>) -> nat
    decreases g.len(),
{
    if g.len() == 0 {
        0
    } else {
        cell_count(g.drop_last()) + g.last().len()
    }
}

/// The start is reachable from itself.
pub proof fn lemma_reachable_self(g: Seq<Seq<Tile>>, start: Pos)
    ensures
        reachable(g, start, start),
{
    let path = seq![start];
    assert(is_path(g, start, path, start));
}

/// Reachability extends along one allowed step.
pub proof fn lemma_reachable_step(g: Seq<Seq<Tile>>, start: Pos, a: Pos, b: Pos)
    requires
        reachable(g, start, a),
        step_ok(g, a, b),
    ensures
        reachable(g, start, b),
{
    let path = choose|path: Seq<Pos>| is_path(g, start, path, a);
    let longer = path.push(b);
    assert forall|i: int| 0 <= i < longer.len() - 1 implies #[trigger] step_ok(
        g,
        longer[i],
        longer[i + 1],
    ) by {
        if i < path.len() - 1 {
            assert(longer[i] == path[i]);
            assert(longer[i + 1] == path[i + 1]);
        } else {
            assert(longer[i] == path[path.len() - 1]);
            assert(longer[i + 1] == b);
        }
    }
    assert(is_path(g, start, longer, b));
}

/// A cell reachable from an on-grid start is itself on the grid.
pub proof fn lemma_reachable_in_bounds(g: Seq<Seq<Tile>>, start: Pos, p: Pos)
    requires
        in_bounds(g, start),
        reachable(g, start, p),
    ensures
        in_bounds(g, p),
{
    let path = choose|path: Seq<Pos>| is_path(g, start, path, p);
    if path.len() == 1 {
        assert(p == start);
    } else {
        let last: int = path.len() - 2;
        assert(step_ok(g, path[last], path[last + 1]));
    }
}

/// The end of a path out of `start` lies in every step-closed set that
/// holds `start`.
proof fn lemma_path_end_in_closed(
    g: Seq<Seq<Tile>>,
    start: Pos,
    s: Set<Pos>,
    path: Seq<Pos>,
    end: Pos,
)
    requires
        s.contains(start),
        forall|a: Pos, b: Pos| s.contains(a) && #[trigger] step_ok(g, a, b) ==> s.contains(b),
        is_path(g, start, path, end),
    ensures
        s.contains(end),
    decreases path.len(),
{
    if path.len() == 1 {
        assert(end == start);
    } else {
        let prefix = path.drop_last();
        let before = path[path.len() - 2];
        assert forall|i: int| 0 <= i < prefix.len() - 1 implies #[trigger] step_ok(
            g,
            prefix[i],
            prefix[i + 1],
        ) by {
            assert(prefix[i] == path[i]);
            assert(prefix[i + 1] == path[i + 1]);
        }
        assert(is_path(g, start, prefix, before));
        lemma_path_end_in_closed(g, start, s, prefix, before);
        let last: int = path.len() - 2;
        assert(step_ok(g, path[last], path[last + 1]));
        assert(step_ok(g, before, end));
    }
}

/// A set that holds the start and is closed under allowed steps holds the
/// whole component.
pub proof fn lemma_closed_contains_component(g: Seq<Seq<Tile>>, start: Pos, s: Set<Pos>)
    requires
        s.contains(start),
        forall|a: Pos, b: Pos| s.contains(a) && #[trigger] step_ok(g, a, b) ==> s.contains(b),
    ensures
        forall|p: Pos| reachable(g, start, p) ==> s.contains(p),
{
    assert forall|p: Pos| reachable(g, start, p) implies s.contains(p) by {
        let path = choose|path: Seq<Pos>| is_path(g, start, path, p);
        lemma_path_end_in_closed(g, start, s, path, p);
    }
}

/// The four candidates for a 4-connected neighbor.
pub proof fn lemma_adjacent_cases(a: Pos, b: Pos)
    requires
        adjacent(a, b),
    ensures
        ({
            ||| b.0 == a.0 && b.1 == a.1 + 1
            ||| b.0 == a.0 + 1 && b.1 == a.1
            ||| b.0 == a.0 && a.1 == b.1 + 1
            ||| a.0 == b.0 + 1 && b.1 == a.1
        }),
{
}

/// The positions of a single row below a column bound:
/// `(x, y)` for `x < w`.
spec fn row_positions(y: usize, w: int) -> Set<Pos> {
    Set::new(|p: Pos| p.1 == y && p.0 < w)
}

proof fn lemma_row_positions_card(y: usize, w: int)
    requires
        0 <= w <= usize::MAX,
    ensures
        row_positions(y, w).finite(),
        row_positions(y, w).len() == w,
    decreases w,
{
    if w == 0 {
        assert(row_positions(y, 0) =~= Set::<Pos>::empty());
    } else {
        lemma_row_positions_card(y, w - 1);
        let last: Pos = ((w - 1) as usize, y);
        assert(row_positions(y, w) =~= row_positions(y, w - 1).insert(last));
        assert(!row_positions(y, w - 1).contains(last));
    }
}

/// The set of grid positions is finite, with exactly `cell_count` elements.
pub proof fn lemma_all_positions_card(g: Seq<Seq<Tile>>)
    requires
        forall|y: int| 0 <= y < g.len() ==> (#[trigger] g[y]).len() <= usize::MAX,
        g.len() <= usize::MAX,
    ensures
        all_positions(g).finite(),
        all_positions(g).len() == cell_count(g),
    decreases g.len(),
{
    if g.len() == 0 {
        assert(all_positions(g) =~= Set::<Pos>::empty());
    } else {
        let shorter = g.drop_last();
        assert forall|y: int| 0 <= y < shorter.len() implies (#[trigger] shorter[y]).len()
            <= usize::MAX by {
            assert(shorter[y] == g[y]);
        }
        lemma_all_positions_card(shorter);
        let y: usize = (g.len() - 1) as usize;
        let w = g.last().len() as int;
        lemma_row_positions_card(y, w);
        let row = row_positions(y, w);
        assert(all_positions(g) =~= all_positions(shorter) + row);
        assert(all_positions(shorter).disjoint(row));
        vstd::set_lib::lemma_set_disjoint_lens(all_positions(shorter), row);
    }
}

/// A duplicate-free sequence of grid positions has at most `cell_count`
/// elements: the pigeonhole bound that bounds the traversal queue.
pub proof fn lemma_distinct_positions_bounded(g: Seq<Seq<Tile>>, s: Seq<Pos>)
    requires
        s.no_duplicates(),
        forall|j: int| 0 <= j < s.len() ==> in_bounds(g, #[trigger] s[j]),
        forall|y: int| 0 <= y < g.len() ==> (#[trigger] g[y]).len() <= usize::MAX,
        g.len() <= usize::MAX,
    ensures
        s.len() <= cell_count(g),
{
    s.unique_seq_to_set();
    vstd::seq_lib::seq_to_set_is_finite(s);
    lemma_all_positions_card(g);
    assert forall|p: Pos| s.to_set().contains(p) implies all_positions(g).contains(p) by {
        let j = choose|j: int| 0 <= j < s.len() && s[j] == p;
        assert(in_bounds(g, s[j]));
    }
    vstd::set_lib::lemma_len_subset(s.to_set(), all_positions(g));
}

/// Scan the grid in row-major order for the player.
///
/// Returns the coordinate `(column, row)` of the first `Player` tile, the
/// first match winning when several exist, or `None` when the map has no
/// player at all.
pub fn find_player(map: &Vec<Vec<Tile>>) -> (r: Option<(usize, usize)>)
    ensures
        match r {
            Some(p) => {
                &&& in_bounds(grid_of(map@), p)
                &&& tile_at(grid_of(map@), p) == Tile::Player
                &&& forall|q: Pos|
                    in_bounds(grid_of(map@), q) && (q.1 < p.1 || (q.1 == p.1 && q.0 < p.0))
                        ==> tile_at(grid_of(map@), q) != Tile::Player
            },
            None => forall|q: Pos|
                in_bounds(grid_of(map@), q) ==> tile_at(grid_of(map@), q) != Tile::Player,
        },
{
    let ghost g = grid_of(map@);
    let mut y: usize = 0;
    while y < map.len()
        invariant
            y <= map.len(),
            g == grid_of(map@),
            forall|q: Pos| in_bounds(g, q) && q.1 < y ==> tile_at(g, q) != Tile::Player,
        decreases map.len() - y,
    {
        let row = &map[y];
        let mut x: usize = 0;
        while x < row.len()
            invariant
                x <= row.len(),
                y < map.len(),
                g == grid_of(map@),
                row@ == g[y as int],
                forall|q: Pos| in_bounds(g, q) && q.1 < y ==> tile_at(g, q) != Tile::Player,
                forall|q: Pos|
                    in_bounds(g, q) && q.1 == y && q.0 < x ==> tile_at(g, q) != Tile::Player,
            decreases row.len() - x,
        {
            if row[x] == Tile::Player {
                return Some((x, y));
            }
            x = x + 1;
        }
        y = y + 1;
    }
    None
}

} // verus!
