use roomgrid::grid::Cell;

#[test]
fn step_order_is_px_pz_nx_nz() {
    let c = Cell { x: 3, z: -2 };
    assert_eq!(c.step(0), Cell { x: 4, z: -2 });
    assert_eq!(c.step(1), Cell { x: 3, z: -1 });
    assert_eq!(c.step(2), Cell { x: 2, z: -2 });
    assert_eq!(c.step(3), Cell { x: 3, z: -3 });
}

#[test]
fn packed_keys_distinguish_cells() {
    let cells = [
        Cell { x: 0, z: 0 },
        Cell { x: 0, z: 1 },
        Cell { x: 1, z: 0 },
        Cell { x: -1, z: 0 },
        Cell { x: 0, z: -1 },
        Cell { x: i32::MIN, z: i32::MAX },
        Cell { x: i32::MAX, z: i32::MIN },
        Cell { x: -1, z: 1 },
        Cell { x: 1, z: -1 },
    ];
    for (i, a) in cells.iter().enumerate() {
        for (j, b) in cells.iter().enumerate() {
            assert_eq!(a.key() == b.key(), i == j);
        }
    }
}
