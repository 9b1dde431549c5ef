use roomgrid::grid::Cell;
use roomgrid::validate::{validate, validate_standard, Verdict};

fn cell(x: i32, z: i32) -> Cell {
    Cell { x, z }
}

/// A square ring of enabled walls around the given interior, with the
/// listed cells left out.
fn wall_ring(lo: i32, hi: i32, holes: &[Cell]) -> Vec<(Cell, bool)> {
    let mut walls = Vec::new();
    for x in lo..=hi {
        for z in lo..=hi {
            if (x == lo || x == hi || z == lo || z == hi) && !holes.contains(&cell(x, z)) {
                walls.push((cell(x, z), true));
            }
        }
    }
    walls
}

#[test]
fn enclosed_room_with_door_is_good() {
    // 3x3 interior enclosed by a wall ring; one wall cell replaced by
    // a door. Reachable: 9 interior cells plus the 12 edge-adjacent
    // boundary cells (door included), well under the cap.
    let walls = wall_ring(0, 4, &[cell(2, 0)]);
    let doors = vec![cell(2, 0)];
    let v = validate_standard(cell(2, 2), &walls, &vec![], &doors);
    assert!(v.good);
    assert!(v.door_found);
    assert!(!v.leak);
    assert!(!v.oversized);
    assert_eq!(v.visited.len(), 21);
    assert!(v.path.is_empty());
    assert_eq!(v.visited[0], cell(2, 2));
}

#[test]
fn enclosed_room_without_door_is_bad_but_not_stopped() {
    let walls = wall_ring(-1, 1, &[]);
    let v = validate_standard(cell(0, 0), &walls, &vec![], &vec![]);
    assert!(!v.good);
    assert!(!v.door_found);
    assert!(!v.leak);
    assert!(!v.oversized);
    assert!(v.path.is_empty());
    // Insertion order: the seed, then its neighbors in the fixed
    // order +x, +z, -x, -z.
    assert_eq!(
        v.visited,
        vec![cell(0, 0), cell(1, 0), cell(0, 1), cell(-1, 0), cell(0, -1)]
    );
}

#[test]
fn water_reached_first_ends_search_with_leak_path() {
    // The flood reaches the water cell before the door: the verdict is
    // bad, and the path's cell nearest the failure — its first entry —
    // is the water cell itself.
    let waters = vec![cell(1, 0)];
    let doors = vec![cell(0, 1)];
    let v = validate_standard(cell(0, 0), &vec![], &waters, &doors);
    assert!(!v.good);
    assert!(v.leak);
    assert!(!v.oversized);
    // +x is scanned before +z, so the door was never reached.
    assert!(!v.door_found);
    assert_eq!(v.path, vec![cell(1, 0)]);
}

#[test]
fn oversized_region_reports_size_not_leak() {
    // An open plane with no water: the search stops only at the cap.
    let v = validate_standard(cell(0, 0), &vec![], &vec![], &vec![]);
    assert!(!v.good);
    assert!(v.oversized);
    assert!(!v.leak);
    assert!(!v.door_found);
    assert!(v.visited.len() > 300);
    assert!(!v.path.is_empty());
    // The path starts at the cell whose turn overflowed the cap.
    assert!(v.visited.contains(&v.path[0]));
}

#[test]
fn small_cap_stops_deterministically() {
    let v = validate(cell(0, 0), &vec![], &vec![], &vec![], 5);
    assert!(v.oversized);
    assert!(!v.leak);
    assert_eq!(v.visited.len(), 8);
    assert_eq!(v.path, vec![cell(0, 1)]);
}

#[test]
fn zero_cap_fails_at_the_seed() {
    let v = validate(cell(0, 0), &vec![], &vec![], &vec![], 0);
    assert!(v.oversized);
    assert!(!v.leak);
    assert_eq!(v.visited.len(), 1);
    // The failure cell is the seed itself, so the path is empty.
    assert!(v.path.is_empty());
}

#[test]
fn door_wins_over_wall_on_same_cell() {
    let walls = wall_ring(-1, 1, &[]);
    let doors = vec![cell(1, 0)];
    let v = validate_standard(cell(0, 0), &walls, &vec![], &doors);
    assert!(v.good);
    assert!(v.door_found);
}

#[test]
fn door_wins_over_water_on_same_cell() {
    let walls = wall_ring(-1, 1, &[cell(1, 0)]);
    let waters = vec![cell(1, 0)];
    let doors = vec![cell(1, 0)];
    let v = validate_standard(cell(0, 0), &walls, &waters, &doors);
    assert!(v.good);
    assert!(!v.leak);
}

#[test]
fn enabled_wall_wins_over_water_on_same_cell() {
    let walls = wall_ring(-1, 1, &[]);
    let waters = vec![cell(1, 0)];
    let v = validate_standard(cell(0, 0), &walls, &waters, &vec![]);
    assert!(!v.leak);
    assert!(!v.good);
    assert!(v.path.is_empty());
    assert_eq!(v.visited.len(), 5);
}

#[test]
fn disabled_walls_are_omitted() {
    let mut walls = wall_ring(-1, 1, &[cell(1, 0)]);
    walls.push((cell(1, 0), false));
    let v = validate(cell(0, 0), &walls, &vec![], &vec![], 5);
    // The search escapes through the disabled wall and overruns the
    // small cap.
    assert!(v.oversized);
    assert_eq!(v.path, vec![cell(2, 0), cell(1, 0)]);
}

#[test]
fn revalidating_yields_identical_verdict() {
    let walls = wall_ring(0, 4, &[cell(2, 0)]);
    let waters = vec![cell(7, 7)];
    let doors = vec![cell(2, 0)];
    let a: Verdict = validate_standard(cell(2, 2), &walls, &waters, &doors);
    let b: Verdict = validate_standard(cell(2, 2), &walls, &waters, &doors);
    assert_eq!(a.good, b.good);
    assert_eq!(a.door_found, b.door_found);
    assert_eq!(a.leak, b.leak);
    assert_eq!(a.oversized, b.oversized);
    assert_eq!(a.visited, b.visited);
    assert_eq!(a.path, b.path);
}

#[test]
fn far_from_origin_cells_behave_the_same() {
    // Negative and large coordinates go through the same packed-key
    // machinery as small ones.
    let s = Cell { x: -100_000, z: 2_000_000 };
    let walls = vec![
        (Cell { x: s.x + 1, z: s.z }, true),
        (Cell { x: s.x, z: s.z + 1 }, true),
        (Cell { x: s.x - 1, z: s.z }, true),
    ];
    let doors = vec![Cell { x: s.x, z: s.z - 1 }];
    let v = validate_standard(s, &walls, &vec![], &doors);
    assert!(v.good);
    assert_eq!(v.visited.len(), 5);
}

#[test]
fn door_need_not_connect_to_the_exterior() {
    // Known limitation, preserved on purpose: a door anywhere in the
    // reachable interior satisfies the check, even when the door leads
    // into another sealed pocket rather than outside.
    let mut walls = wall_ring(-1, 1, &[cell(1, 0)]);
    for (c, e) in wall_ring(-2, 2, &[]) {
        walls.push((c, e));
    }
    let doors = vec![cell(1, 0)];
    let v = validate_standard(cell(0, 0), &walls, &vec![], &doors);
    assert!(v.good);
}
