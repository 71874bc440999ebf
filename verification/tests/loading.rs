use std::collections::HashMap;

use rustgraph::loader::{
    material_texture_map, mesh_triangle_corners, primitive_texture, sequential_indices, LoadResult,
    MaterialTexture, PrimitiveIndices, TextureRegistry, TriangleCorners,
};

fn tri(primitive: usize, a: usize, b: usize, c: usize) -> TriangleCorners {
    TriangleCorners { primitive, a, b, c }
}

#[test]
fn sequential_indices_count_up() {
    assert_eq!(sequential_indices(4), vec![0, 1, 2, 3]);
    assert_eq!(sequential_indices(0), Vec::<u32>::new());
}

#[test]
fn mesh_corners_offset_by_earlier_primitives() {
    let prims = vec![
        PrimitiveIndices { is_triangles: true, vertex_count: 4, indices: Some(vec![0, 1, 2, 2, 3, 0, 1]) },
        PrimitiveIndices { is_triangles: false, vertex_count: 10, indices: Some(vec![0, 1, 2]) },
        PrimitiveIndices { is_triangles: true, vertex_count: 0, indices: Some(vec![0, 1, 2]) },
        PrimitiveIndices { is_triangles: true, vertex_count: 3, indices: None },
    ];
    let out = mesh_triangle_corners(&prims).unwrap();
    assert_eq!(out, vec![tri(0, 0, 1, 2), tri(0, 2, 3, 0), tri(3, 4, 5, 6)]);
}

#[test]
fn mesh_corners_report_index_overflow() {
    let prims = vec![
        PrimitiveIndices { is_triangles: true, vertex_count: 3, indices: None },
        PrimitiveIndices { is_triangles: true, vertex_count: 3, indices: Some(vec![u32::MAX, 0, 1]) },
    ];
    assert_eq!(mesh_triangle_corners(&prims), None);
    // the trailing partial group is never added, so it cannot overflow
    let prims = vec![
        PrimitiveIndices { is_triangles: true, vertex_count: 3, indices: None },
        PrimitiveIndices { is_triangles: true, vertex_count: 3, indices: Some(vec![0, 1, 2, u32::MAX]) },
    ];
    assert_eq!(mesh_triangle_corners(&prims), Some(vec![tri(0, 0, 1, 2), tri(1, 3, 4, 5)]));
}

#[test]
fn material_map_uses_loaded_images_only() {
    let mut image_to_tex = HashMap::new();
    image_to_tex.insert(5usize, 0usize);
    image_to_tex.insert(7usize, 1usize);
    let mats = vec![
        MaterialTexture { material: Some(0), image: Some(7) },
        MaterialTexture { material: Some(1), image: Some(9) },
        MaterialTexture { material: None, image: Some(5) },
        MaterialTexture { material: Some(2), image: None },
    ];
    let m = material_texture_map(&mats, &image_to_tex);
    assert_eq!(m.len(), 1);
    assert_eq!(m.get(&0), Some(&0));
    assert_eq!(primitive_texture(Some(0), &m), Some(0));
    assert_eq!(primitive_texture(Some(1), &m), None);
    assert_eq!(primitive_texture(None, &m), None);
}

#[test]
fn registry_loads_each_file_once() {
    let mut reg = TextureRegistry::new();
    assert_eq!(reg.find_path("a.png"), None);
    let t0 = reg.add_loaded(0, "a.png".to_string());
    let t1 = reg.add_loaded(1, "b.png".to_string());
    assert_eq!((t0, t1), (0, 1));
    let again = reg.find_path("a.png").unwrap();
    reg.reuse(2, again);
    assert_eq!(reg.len(), 2);
    assert_eq!(reg.image_textures().get(&2), Some(&0));
    assert_eq!(reg.image_textures().get(&1), Some(&1));
}

#[test]
fn load_result_drops_empty_meshes() {
    let mut r: LoadResult<u8, ()> = LoadResult::with_textures(vec![()]);
    r.add_mesh(vec![]);
    assert!(matches!(r.finish(), Err(e) if e == "No valid triangles found in the glTF file."));
    let mut r: LoadResult<u8, ()> = LoadResult::with_textures(vec![]);
    r.add_mesh(vec![1, 2]);
    r.add_mesh(vec![]);
    let ok = r.finish().unwrap();
    assert_eq!(ok.meshes, vec![vec![1, 2]]);
}
