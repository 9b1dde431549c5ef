use roomgrid::mask::SolidityMask;
use roomgrid::mesh::{compile, flat_shade, MeshBuffer, VertexKey};

fn mask_of(width: usize, height: usize, bits: Vec<bool>) -> SolidityMask {
    SolidityMask::from_bits(width, height, bits).expect("valid mask")
}

fn distinct_referenced_keys(m: &MeshBuffer) -> usize {
    let mut seen: Vec<VertexKey> = Vec::new();
    for &i in &m.indices {
        let k = m.vertices[i as usize];
        if !seen.contains(&k) {
            seen.push(k);
        }
    }
    seen.len()
}

#[test]
fn empty_mask_yields_empty_buffers() {
    let m = compile(&mask_of(0, 0, vec![]));
    assert_eq!(m.vertices.len(), 0);
    assert_eq!(m.uvs.len(), 0);
    assert_eq!(m.indices.len(), 0);
}

#[test]
fn single_solid_cell_counts() {
    let m = compile(&mask_of(1, 1, vec![true]));
    // 10 triangles, 30 index entries for one cell.
    assert_eq!(m.indices.len(), 30);
    // 4 corners at the top level plus 4 at ground level.
    assert_eq!(m.vertices.len(), 8);
    assert_eq!(m.uvs.len(), 8);
    for &i in &m.indices {
        assert!((i as usize) < m.vertices.len());
    }
    // The solid cell's top face sits at level 2.
    assert_eq!(m.vertices[0], VertexKey { x: 0, level: 2, z: 0 });
    // Distinct referenced keys equal the vertex-buffer length.
    assert_eq!(distinct_referenced_keys(&m), m.vertices.len());
}

#[test]
fn single_empty_cell_uses_skirt_level() {
    let m = compile(&mask_of(1, 1, vec![false]));
    assert_eq!(m.indices.len(), 30);
    assert_eq!(m.vertices.len(), 8);
    // An empty cell's top face sits at level 1.
    assert_eq!(m.vertices[0], VertexKey { x: 0, level: 1, z: 0 });
}

#[test]
fn adjacent_cells_share_welded_vertices() {
    let m = compile(&mask_of(2, 1, vec![true, true]));
    assert_eq!(m.indices.len(), 60);
    // Corner grid 3 x 2 at the shared top level plus the same at ground.
    assert_eq!(m.vertices.len(), 12);
    assert_eq!(distinct_referenced_keys(&m), 12);
}

#[test]
fn triangle_count_matches_mask_area() {
    let w = 4;
    let h = 3;
    let bits = vec![
        true, false, true, true, false, false, true, false, true, true, false, true,
    ];
    let m = compile(&mask_of(w, h, bits));
    assert_eq!(m.indices.len(), 30 * w * h);
    assert_eq!(m.indices.len() % 3, 0);
    for &i in &m.indices {
        assert!((i as usize) < m.vertices.len());
    }
    assert_eq!(distinct_referenced_keys(&m), m.vertices.len());
}

#[test]
fn uv_inset_of_single_solid_cell() {
    let m = compile(&mask_of(1, 1, vec![true]));
    for (k, uv) in m.vertices.iter().zip(m.uvs.iter()) {
        assert_eq!(uv.x, k.x);
        assert_eq!(uv.z, k.z);
        // Corner (0,0) sees the solid pixel in its own cell: +1, +1.
        // Corner (1,1) sees it diagonally behind: -1, -1, and so on.
        let expect = match (k.x, k.z) {
            (0, 0) => (1, 1),
            (1, 0) => (-1, 1),
            (0, 1) => (1, -1),
            (1, 1) => (-1, -1),
            _ => unreachable!(),
        };
        assert_eq!((uv.du, uv.dv), expect);
        assert!(uv.du >= -2 && uv.du <= 2);
        assert!(uv.dv >= -2 && uv.dv <= 2);
    }
}

#[test]
fn uv_inset_stays_bounded_on_full_mask() {
    let m = compile(&mask_of(3, 3, vec![true; 9]));
    for uv in &m.uvs {
        assert!(uv.du >= -2 && uv.du <= 2);
        assert!(uv.dv >= -2 && uv.dv <= 2);
    }
    // An interior corner of an all-solid mask sees four solid pixels
    // whose contributions cancel.
    let interior = m
        .uvs
        .iter()
        .find(|uv| uv.x == 1 && uv.z == 1)
        .expect("interior corner");
    assert_eq!((interior.du, interior.dv), (0, 0));
}

#[test]
fn flat_shading_duplicates_per_index() {
    let mesh = compile(&mask_of(2, 2, vec![true, false, false, true]));
    let flat = flat_shade(&mesh);
    assert_eq!(flat.vertices.len(), mesh.indices.len());
    assert_eq!(flat.uvs.len(), mesh.indices.len());
    for (i, &idx) in mesh.indices.iter().enumerate() {
        assert_eq!(flat.vertices[i], mesh.vertices[idx as usize]);
        assert_eq!(flat.uvs[i], mesh.uvs[idx as usize]);
    }
}

#[test]
fn recompiling_yields_identical_buffers() {
    let bits = vec![true, false, true, false, true, false];
    let a = compile(&mask_of(3, 2, bits.clone()));
    let b = compile(&mask_of(3, 2, bits));
    assert_eq!(a.vertices, b.vertices);
    assert_eq!(a.uvs, b.uvs);
    assert_eq!(a.indices, b.indices);
}

#[test]
fn alpha_threshold_is_128() {
    let rgba = vec![
        0, 0, 0, 127, // below the threshold: empty
        0, 0, 0, 128, // at the threshold: solid
    ];
    let m = SolidityMask::from_rgba(2, 1, &rgba).expect("valid image");
    let mesh = compile(&m);
    // First cell empty (level 1), second solid (level 2).
    assert_eq!(mesh.vertices[0], VertexKey { x: 0, level: 1, z: 0 });
    assert!(mesh.vertices.contains(&VertexKey { x: 1, level: 2, z: 1 }));
}

#[test]
fn mismatched_rgba_buffer_is_rejected() {
    assert!(SolidityMask::from_rgba(2, 2, &vec![0u8; 15]).is_none());
    assert!(SolidityMask::from_rgba(2, 2, &vec![0u8; 16]).is_some());
    assert!(SolidityMask::from_bits(2, 2, vec![true; 3]).is_none());
}
