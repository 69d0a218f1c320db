use gold_maze::bfs::collect_gold;
use gold_maze::grid::find_player;
use gold_maze::parse::{parse_header, parse_map, parse_row};
use gold_maze::tile::Tile;

fn grid(rows: &[&str]) -> Vec<Vec<Tile>> {
    rows.iter().map(|r| parse_row(&r.chars().collect())).collect()
}

#[test]
fn three_by_three_example() {
    // header `3 3`, rows `P.G`, `...`, `#T#`: the component is all of the
    // first two rows (6 cells) and holds one gold tile.
    let header = parse_header(&"3 3".chars().collect()).unwrap();
    assert_eq!(header, (3, 3));
    let lines: Vec<Vec<char>> =
        ["P.G", "...", "#T#"].iter().map(|r| r.chars().collect()).collect();
    let map = parse_map(&lines, header.1).unwrap();
    let start = find_player(&map).unwrap();
    assert_eq!(start, (0, 0));
    let t = collect_gold(&map, start);
    assert_eq!(t.gold, 1);
    assert_eq!(t.visits.len(), 6);
    assert_eq!(t.edges.len(), 5);
    for y in 0..2 {
        for x in 0..3 {
            assert!(t.visits.contains(&(x, y)));
        }
    }
}

#[test]
fn trap_blocks_traversal() {
    // header `3 1`, row `PTG`: the trap blocks; the gold is unreachable.
    let map = grid(&["PTG"]);
    let start = find_player(&map).unwrap();
    assert_eq!(start, (0, 0));
    let t = collect_gold(&map, start);
    assert_eq!(t.gold, 0);
    assert_eq!(t.visits, vec![(0, 0)]);
    assert!(t.edges.is_empty());
}

#[test]
fn no_gold_counts_zero() {
    let map = grid(&["P..", "...", "..."]);
    let start = find_player(&map).unwrap();
    let t = collect_gold(&map, start);
    assert_eq!(t.gold, 0);
    assert_eq!(t.visits.len(), 9);
}

#[test]
fn enclosed_component_counts_its_gold() {
    // fully walled; three golds, each reachable through floor tiles
    let map = grid(&["#####", "#P.G#", "#.#G#", "#G#.#", "#####"]);
    let start = find_player(&map).unwrap();
    assert_eq!(start, (1, 1));
    let t = collect_gold(&map, start);
    // reachable: (3,1) via floor, (3,2) below it, (1,3) below (1,2)
    assert_eq!(t.gold, 3);
}

#[test]
fn wall_separates_gold() {
    let map = grid(&["P#G"]);
    let t = collect_gold(&map, find_player(&map).unwrap());
    assert_eq!(t.gold, 0);
    assert_eq!(t.visits, vec![(0, 0)]);
}

#[test]
fn disconnected_region_gold_uncounted() {
    let map = grid(&["P.#G", "..#G", "####"]);
    let t = collect_gold(&map, find_player(&map).unwrap());
    assert_eq!(t.gold, 0);
    assert_eq!(t.visits.len(), 4);
}

#[test]
fn each_cell_visited_once() {
    let map = grid(&["P...", "....", "...G"]);
    let t = collect_gold(&map, find_player(&map).unwrap());
    assert_eq!(t.visits.len(), 12);
    for i in 0..t.visits.len() {
        for j in 0..i {
            assert_ne!(t.visits[i], t.visits[j]);
        }
    }
    assert_eq!(t.gold, 1);
}

#[test]
fn start_on_gold_is_counted() {
    let map = grid(&["G."]);
    let t = collect_gold(&map, (0, 0));
    assert_eq!(t.gold, 1);
}

#[test]
fn compass_order_is_down_right_up_left() {
    let map = grid(&["P.", ".."]);
    let t = collect_gold(&map, (0, 0));
    assert_eq!(t.visits, vec![(0, 0), (0, 1), (1, 0), (1, 1)]);
    assert_eq!(
        t.edges,
        vec![((0, 0), (0, 1)), ((0, 0), (1, 0)), ((0, 1), (1, 1))]
    );
}

#[test]
fn traversal_is_idempotent() {
    let map = grid(&["P.G", ".#.", "G.."]);
    let start = find_player(&map).unwrap();
    let a = collect_gold(&map, start);
    let b = collect_gold(&map, start);
    assert_eq!(a.gold, b.gold);
    assert_eq!(a.visits, b.visits);
    assert_eq!(a.edges, b.edges);
}

#[test]
fn player_not_found() {
    let map = grid(&["..G", "###"]);
    assert_eq!(find_player(&map), None);
}

#[test]
fn first_player_in_row_major_order_wins() {
    let map = grid(&[".P.", "P.."]);
    assert_eq!(find_player(&map), Some((1, 0)));
}

#[test]
fn ragged_rows_stay_in_bounds() {
    // the second row shrinks to one cell once the stray character is dropped
    let map = grid(&["P..", ".x.", "..G"]);
    let t = collect_gold(&map, find_player(&map).unwrap());
    assert_eq!(t.gold, 1);
}
