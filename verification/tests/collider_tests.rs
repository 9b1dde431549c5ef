use roomgrid::collider::{merge, ColliderRect};
use roomgrid::mask::{ColorMask, Rgb};

const RED: Rgb = Rgb { r: 255, g: 0, b: 0 };
const BLUE: Rgb = Rgb { r: 0, g: 0, b: 255 };

fn mask_of(width: usize, height: usize, solid: Vec<bool>, colors: Vec<Rgb>) -> ColorMask {
    ColorMask::from_parts(width, height, solid, colors).expect("valid mask")
}

#[test]
fn empty_mask_yields_no_colliders() {
    let r = merge(&mask_of(0, 0, vec![], vec![]));
    assert!(r.is_empty());
}

#[test]
fn full_square_yields_one_box() {
    // A 2x2 all-solid same-color mask merges into exactly one box
    // spanning the full extent.
    let r = merge(&mask_of(2, 2, vec![true; 4], vec![RED; 4]));
    assert_eq!(r.len(), 1);
    assert_eq!(
        r[0],
        ColliderRect { min_x: 0, min_z: 0, max_x: 1, max_z: 1, color: RED }
    );
}

#[test]
fn l_shape_keeps_bounding_box() {
    // Three cells of a 2x2 square, the corner at (1,1) missing: still
    // one box, and its extent covers the missing fourth cell — the
    // documented bounding-box overestimate.
    let solid = vec![true, true, true, false];
    let r = merge(&mask_of(2, 2, solid, vec![RED; 4]));
    assert_eq!(r.len(), 1);
    assert_eq!(
        r[0],
        ColliderRect { min_x: 0, min_z: 0, max_x: 1, max_z: 1, color: RED }
    );
}

#[test]
fn colors_split_components() {
    // Two adjacent solid cells of different colors form two boxes.
    let r = merge(&mask_of(2, 1, vec![true, true], vec![RED, BLUE]));
    assert_eq!(r.len(), 2);
    assert_eq!(
        r[0],
        ColliderRect { min_x: 0, min_z: 0, max_x: 0, max_z: 0, color: RED }
    );
    assert_eq!(
        r[1],
        ColliderRect { min_x: 1, min_z: 0, max_x: 1, max_z: 0, color: BLUE }
    );
}

#[test]
fn diagonal_cells_are_separate_components() {
    // 4-connectivity: diagonal neighbors do not merge.
    let solid = vec![true, false, false, true];
    let r = merge(&mask_of(2, 2, solid, vec![RED; 4]));
    assert_eq!(r.len(), 2);
}

#[test]
fn disconnected_same_color_regions_get_own_boxes() {
    // Two solid columns separated by an empty one.
    let solid = vec![true, false, true, true, false, true];
    let r = merge(&mask_of(3, 2, solid, vec![RED; 6]));
    assert_eq!(r.len(), 2);
    assert_eq!(
        r[0],
        ColliderRect { min_x: 0, min_z: 0, max_x: 0, max_z: 1, color: RED }
    );
    assert_eq!(
        r[1],
        ColliderRect { min_x: 2, min_z: 0, max_x: 2, max_z: 1, color: RED }
    );
}

#[test]
fn every_solid_cell_is_covered_by_its_color() {
    let solid = vec![
        true, true, false, true, false, true, true, false, true, true, false, true,
    ];
    let colors = vec![
        RED, RED, RED, BLUE, RED, RED, RED, BLUE, BLUE, BLUE, RED, BLUE,
    ];
    let m = mask_of(4, 3, solid.clone(), colors.clone());
    let r = merge(&m);
    for z in 0..3usize {
        for x in 0..4usize {
            let i = z * 4 + x;
            if solid[i] {
                assert!(
                    r.iter().any(|b| b.min_x <= x
                        && x <= b.max_x
                        && b.min_z <= z
                        && z <= b.max_z
                        && b.color == colors[i]),
                    "cell ({x},{z}) uncovered"
                );
            }
        }
    }
}

#[test]
fn remerging_yields_identical_boxes() {
    let solid = vec![true, true, true, false, true, false];
    let colors = vec![RED, BLUE, BLUE, RED, RED, BLUE];
    let a = merge(&mask_of(3, 2, solid.clone(), colors.clone()));
    let b = merge(&mask_of(3, 2, solid, colors));
    assert_eq!(a, b);
}

#[test]
fn alpha_decides_collider_solidity() {
    // RGBA input: only the pixel with alpha at or above 128 is solid.
    let rgba = vec![
        255, 0, 0, 200, // solid red
        255, 0, 0, 10, // transparent red
    ];
    let m = ColorMask::from_rgba(2, 1, &rgba).expect("valid image");
    let r = merge(&m);
    assert_eq!(r.len(), 1);
    assert_eq!(
        r[0],
        ColliderRect { min_x: 0, min_z: 0, max_x: 0, max_z: 0, color: RED }
    );
}
