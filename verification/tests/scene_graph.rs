use rustgraph::scene::{root_indices_of, NodeType, Scene, SceneNode};

fn node(name: &str, children: Vec<usize>) -> SceneNode {
    SceneNode { name: name.to_string(), node_type: NodeType::Empty, children }
}

fn sample() -> Scene {
    // 0 -> {1, 2}, 2 -> {3}, 4 alone
    Scene::from_nodes(
        vec![node("root", vec![1, 2]), node("a", vec![]), node("b", vec![3]), node("c", vec![]), node("lone", vec![])],
        1,
        1,
    )
}

#[test]
fn roots_are_nodes_nobody_lists() {
    let s = sample();
    assert_eq!(s.root_indices, vec![0, 4]);
    let nodes = vec![node("x", vec![1, 99]), node("y", vec![0])];
    assert_eq!(root_indices_of(&nodes), Vec::<usize>::new());
}

#[test]
fn find_node_by_name_finds_first() {
    let mut s = sample();
    s.nodes.push(node("a", vec![]));
    assert_eq!(s.find_node_by_name("a"), Some(1));
    assert_eq!(s.find_node_by_name("lone"), Some(4));
    assert_eq!(s.find_node_by_name("missing"), None);
}

#[test]
fn setup_camera_binds_new_camera() {
    let mut s = sample();
    assert_eq!(s.setup_camera(3), Ok(0));
    assert_eq!(s.setup_camera(1), Ok(1));
    assert_eq!(s.nodes[3].node_type, NodeType::Camera { camera_index: 0 });
    assert_eq!(s.camera_count, 2);
    assert_eq!(s.setup_camera(5), Err("Node index out of bounds".to_string()));
    assert_eq!(s.camera_count, 2);
}

#[test]
fn create_light_counts_up() {
    let mut s = sample();
    assert_eq!(s.create_light(), 0);
    assert_eq!(s.create_light(), 1);
    assert_eq!(s.light_count, 2);
}

#[test]
fn bind_light_checks_both_indices() {
    let mut s = sample();
    let l = s.create_light();
    assert_eq!(s.bind_light_to_node(9, l), Err("Node index out of bounds".to_string()));
    assert_eq!(s.bind_light_to_node(2, 5), Err("Light index out of bounds".to_string()));
    assert_eq!(s.nodes[2].node_type, NodeType::Empty);
    assert_eq!(s.bind_light_to_node(2, l), Ok(()));
    assert_eq!(s.nodes[2].node_type, NodeType::Light { light_index: 0 });
}

#[test]
fn transform_order_is_depth_first_parents_first() {
    let s = sample();
    let order = s.transform_order().unwrap();
    assert_eq!(order, vec![(0, None), (1, Some(0)), (2, Some(0)), (3, Some(2)), (4, None)]);
    for (k, step) in order.iter().enumerate() {
        if let Some(p) = step.1 {
            assert!(order[..k].iter().any(|s| s.0 == p));
        }
    }
}

#[test]
fn transform_order_revisits_shared_children() {
    let mut s = Scene::from_nodes(vec![node("a", vec![2]), node("b", vec![2]), node("c", vec![])], 0, 0);
    assert_eq!(s.root_indices, vec![0, 1]);
    assert_eq!(s.transform_order().unwrap(), vec![(0, None), (2, Some(0)), (1, None), (2, Some(1))]);
    s.root_indices = vec![7];
    assert_eq!(s.transform_order(), None);
}

#[test]
fn transform_order_rejects_cycle() {
    let mut s = Scene::from_nodes(vec![node("a", vec![1]), node("b", vec![0])], 0, 0);
    assert_eq!(s.root_indices, Vec::<usize>::new());
    assert_eq!(s.transform_order(), Some(vec![]));
    s.root_indices = vec![0];
    assert_eq!(s.transform_order(), None);
}
