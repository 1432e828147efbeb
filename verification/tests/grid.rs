use std::collections::{HashMap, HashSet};

use triactory::grid::coords::coord_lt;
use triactory::grid::neighbors::contains_coord;
use triactory::grid::{hexagon_tiles, tiles_within, HexMapError, TriCoord};

fn expected_row_widths(edge_tiles: i32) -> Vec<i32> {
    let rows_half = edge_tiles / 2;
    let total_rows = 2 * rows_half;
    (0..total_rows)
        .map(|a| edge_tiles + 2 * a.min(total_rows - 1 - a))
        .collect()
}

#[test]
fn orientation_matches_sum() {
    assert!(TriCoord::new(0, 0, 1).is_upward());
    assert!(TriCoord::new(0, 0, 2).is_downward());
}

#[test]
fn rejects_even_edge_length() {
    assert_eq!(hexagon_tiles(4), Err(HexMapError::MustBeOdd(4)));
}

#[test]
fn rejects_too_small() {
    assert_eq!(hexagon_tiles(1), Err(HexMapError::TooSmall(1)));
}

#[test]
fn matches_the_worked_example() {
    let tiles = hexagon_tiles(15).unwrap();
    assert_eq!(tiles.len(), 294);

    let mut by_row = HashMap::<i32, i32>::new();
    for t in &tiles {
        *by_row.entry(t.a).or_default() += 1;
    }
    assert_eq!(*by_row.values().max().unwrap(), 27);
    assert_eq!(by_row.values().filter(|&&w| w == 27).count(), 2);
}

#[test]
fn row_widths_match_formula_for_many_sizes() {
    for edge_tiles in [3, 5, 7, 9, 11, 15, 21] {
        let tiles = hexagon_tiles(edge_tiles).unwrap();
        let expected = expected_row_widths(edge_tiles);
        assert_eq!(tiles.len() as i32, expected.iter().sum::<i32>());

        let mut by_row = HashMap::<i32, i32>::new();
        for t in &tiles {
            *by_row.entry(t.a).or_default() += 1;
        }
        let lo = *by_row.keys().min().unwrap();
        let hi = *by_row.keys().max().unwrap();
        let mut got: Vec<i32> = (lo..=hi).map(|a| by_row[&a]).collect();
        got.sort_unstable();
        let mut expected_sorted = expected.clone();
        expected_sorted.sort_unstable();
        assert_eq!(got, expected_sorted, "row widths mismatch for edge_tiles={edge_tiles}");
    }
}

#[test]
fn no_duplicate_tiles() {
    let tiles = hexagon_tiles(15).unwrap();
    let unique: HashSet<_> = tiles.iter().collect();
    assert_eq!(unique.len(), tiles.len());
}

#[test]
fn tile_count_formula_is_6m_squared() {
    for edge_tiles in [3, 5, 7, 9, 15, 21, 31] {
        let m = (edge_tiles - 1) / 2;
        let tiles = hexagon_tiles(edge_tiles).unwrap();
        assert_eq!(tiles.len() as i32, 6 * m * m);
    }
}

#[test]
fn is_connected_via_edge_neighbors() {
    let tiles = hexagon_tiles(9).unwrap();
    let set: HashSet<_> = tiles.iter().copied().collect();
    let start = tiles[0];
    let mut seen = HashSet::new();
    let mut stack = vec![start];
    seen.insert(start);
    while let Some(t) = stack.pop() {
        for n in t.edge_neighbors() {
            if set.contains(&n) && seen.insert(n) {
                stack.push(n);
            }
        }
    }
    assert_eq!(seen.len(), set.len());
}

#[test]
fn edge_neighbors_flip_orientation() {
    let up = TriCoord::new(0, 0, 1);
    for n in up.edge_neighbors() {
        assert!(n.is_downward());
        assert_eq!(up.distance(&n), 1);
    }
}

#[test]
fn edge_neighbors_are_symmetric() {
    let tile = TriCoord::new(2, -3, 2);
    for neighbor in tile.edge_neighbors() {
        assert!(
            neighbor.edge_neighbors().contains(&tile),
            "{neighbor:?} does not list {tile:?} back as a neighbor"
        );
    }
}

#[test]
fn distance_matches_bfs_edge_count() {
    let start = TriCoord::new(0, 0, 1);
    for (target, expected) in [
        (TriCoord::new(0, 0, 1), 0),
        (TriCoord::new(1, 0, 1), 1),
        (TriCoord::new(1, -1, 1), 2),
    ] {
        assert_eq!(start.distance(&target), expected);
    }
}

#[test]
fn tiles_within_zero_is_just_center() {
    let center = TriCoord::new(0, 0, 1);
    assert_eq!(tiles_within(center, 0), vec![center]);
}

#[test]
fn tiles_within_one_is_center_plus_edge_neighbors() {
    let center = TriCoord::new(0, 0, 1);
    let mut got: Vec<_> = tiles_within(center, 1);
    got.sort();
    let mut expected: Vec<_> = std::iter::once(center).chain(center.edge_neighbors()).collect();
    expected.sort();
    assert_eq!(got, expected);
}

// ---- further cases ----

#[test]
fn sum_reports_the_lane_sum() {
    assert_eq!(TriCoord::new(3, -1, -1).sum(), 1);
    assert_eq!(TriCoord::new(-2, 5, -1).sum(), 2);
    assert!(!TriCoord::new(-2, 5, -1).is_upward());
    assert!(!TriCoord::new(3, -1, -1).is_downward());
}

#[test]
fn edge_neighbors_of_an_upward_tile_raise_one_lane() {
    let up = TriCoord::new(0, 0, 1);
    assert_eq!(
        up.edge_neighbors(),
        [TriCoord::new(1, 0, 1), TriCoord::new(0, 1, 1), TriCoord::new(0, 0, 2)]
    );
    let down = TriCoord::new(0, 0, 2);
    assert_eq!(
        down.edge_neighbors(),
        [TriCoord::new(-1, 0, 2), TriCoord::new(0, -1, 2), TriCoord::new(0, 0, 1)]
    );
}

#[test]
fn edge_neighbors_are_three_distinct_tiles() {
    for t in [TriCoord::new(0, 0, 1), TriCoord::new(4, -2, 0), TriCoord::new(-3, 2, 3)] {
        let ns = t.edge_neighbors();
        assert_ne!(ns[0], ns[1]);
        assert_ne!(ns[1], ns[2]);
        assert_ne!(ns[0], ns[2]);
        assert!(!ns.contains(&t));
    }
}

#[test]
fn distance_is_a_metric_on_samples() {
    let pts = [
        TriCoord::new(0, 0, 1),
        TriCoord::new(3, -1, -1),
        TriCoord::new(-2, 5, -1),
        TriCoord::new(5, -3, 0),
        TriCoord::new(1, 1, 0),
    ];
    for x in pts {
        assert_eq!(x.distance(&x), 0);
        for y in pts {
            assert_eq!(x.distance(&y), y.distance(&x));
            if x != y {
                assert!(x.distance(&y) > 0);
            }
            for z in pts {
                assert!(x.distance(&z) <= x.distance(&y) + y.distance(&z));
            }
        }
    }
}

#[test]
fn distance_is_the_sum_of_lane_gaps() {
    let x = TriCoord::new(3, -1, -1);
    let y = TriCoord::new(-2, 5, -1);
    assert_eq!(x.distance(&y), 5 + 6 + 0);
}

#[test]
fn a_step_to_a_neighbor_changes_distance_by_one() {
    let t = TriCoord::new(2, -3, 2);
    let u = TriCoord::new(-4, 1, 4);
    for n in t.edge_neighbors() {
        let d = (t.distance(&u) - n.distance(&u)).abs();
        assert_eq!(d, 1);
    }
}

#[test]
fn tiles_within_two_holds_every_tile_at_most_two_away() {
    let center = TriCoord::new(0, 0, 1);
    let got = tiles_within(center, 2);
    let unique: HashSet<_> = got.iter().copied().collect();
    assert_eq!(unique.len(), got.len());
    let mut expected = HashSet::new();
    for a in -3..=3 {
        for b in -3..=3 {
            for c in [1 - a - b, 2 - a - b] {
                let t = TriCoord::new(a, b, c);
                if t.distance(&center) <= 2 {
                    expected.insert(t);
                }
            }
        }
    }
    assert_eq!(unique, expected);
    assert_eq!(got.len(), 10);
}

#[test]
fn hexagon_tiles_come_in_lexicographic_order() {
    let tiles = hexagon_tiles(7).unwrap();
    for w in tiles.windows(2) {
        assert!(w[0] < w[1]);
        assert!(coord_lt(&w[0], &w[1]));
    }
}

#[test]
fn hexagon_tile_membership_matches_the_lane_bounds() {
    let tiles = hexagon_tiles(5).unwrap();
    let m = 2;
    for a in -4..=4 {
        for b in -4..=4 {
            for c in [1 - a - b, 2 - a - b] {
                let t = TriCoord::new(a, b, c);
                let inside = (-m..=m - 1).contains(&a) && (1 - m..=m).contains(&b) && (2 - m..=m + 1).contains(&c);
                assert_eq!(tiles.contains(&t), inside, "{t:?}");
            }
        }
    }
}

#[test]
fn hexagon_rejects_every_even_and_small_length() {
    assert_eq!(hexagon_tiles(2), Err(HexMapError::TooSmall(2)));
    assert_eq!(hexagon_tiles(-5), Err(HexMapError::TooSmall(-5)));
    assert_eq!(hexagon_tiles(10), Err(HexMapError::MustBeOdd(10)));
    assert_eq!(hexagon_tiles(3).unwrap().len(), 6);
}

#[test]
fn coord_lt_is_lexicographic() {
    assert!(coord_lt(&TriCoord::new(0, 0, 1), &TriCoord::new(0, 0, 2)));
    assert!(coord_lt(&TriCoord::new(-1, 5, -3), &TriCoord::new(0, 0, 1)));
    assert!(!coord_lt(&TriCoord::new(0, 0, 1), &TriCoord::new(0, 0, 1)));
}

#[test]
fn contains_coord_finds_members_only() {
    let v = vec![TriCoord::new(0, 0, 1), TriCoord::new(1, 0, 1)];
    assert!(contains_coord(&v, &TriCoord::new(1, 0, 1)));
    assert!(!contains_coord(&v, &TriCoord::new(0, 1, 1)));
}

#[test]
fn hexagon_rows_fill_contiguous_blocks() {
    for edge_tiles in [3, 5, 9, 15] {
        let m = (edge_tiles - 1) / 2;
        let tiles = hexagon_tiles(edge_tiles).unwrap();
        let mut start = 0usize;
        for a in -m..=m - 1 {
            let width = (2 * m + 1 + 2 * (a + m).min(m - 1 - a)) as usize;
            for (i, t) in tiles.iter().enumerate() {
                assert_eq!(t.a == a, start <= i && i < start + width, "edge {edge_tiles} row {a} index {i}");
            }
            start += width;
        }
        assert_eq!(start, tiles.len());
    }
}

#[test]
fn edge_neighbors_of_a_downward_tile_at_the_top_of_i32() {
    let t = TriCoord::new(i32::MAX, 2 - i32::MAX, 0);
    assert!(t.is_downward());
    let ns = t.edge_neighbors();
    assert_eq!(ns, [TriCoord::new(i32::MAX - 1, 2 - i32::MAX, 0), TriCoord::new(i32::MAX, 1 - i32::MAX, 0), TriCoord::new(i32::MAX, 2 - i32::MAX, -1)]);
    for n in ns {
        assert_eq!(t.distance(&n), 1);
        assert!(n.is_upward());
    }
}

#[test]
fn distance_is_the_fewest_edge_crossings() {
    let start = TriCoord::new(0, 0, 1);
    let mut dist: HashMap<TriCoord, i32> = HashMap::from([(start, 0)]);
    let mut ring = vec![start];
    for d in 1..=6 {
        let mut next = Vec::new();
        for t in ring {
            for n in t.edge_neighbors() {
                if !dist.contains_key(&n) {
                    dist.insert(n, d);
                    next.push(n);
                }
            }
        }
        ring = next;
    }
    for (t, d) in &dist {
        assert_eq!(start.distance(t), *d, "{t:?}");
    }
    assert_eq!(dist.len(), tiles_within(start, 6).len());
}
