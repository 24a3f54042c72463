use voxel_raymarcher::scene::{process_scene_node, scene_checks, SceneFrame, SceneNode, ShapeInstance};

fn frame(position: Option<[i32; 3]>, rotation: Option<&str>) -> SceneFrame {
    SceneFrame { position, rotation: rotation.map(|r| r.to_string()) }
}

fn roots(out: &Vec<ShapeInstance>) -> Vec<(u32, [i64; 3], Option<u32>)> {
    out.iter().map(|s| (s.model_id, s.root, s.oriented_by)).collect()
}

#[test]
fn single_shape_is_placed_at_root() {
    let scenes = vec![SceneNode::Shape { models: vec![4, 9] }];
    let mut out = Vec::new();
    process_scene_node(0, &scenes, [1, 2, 3], None, &mut out);
    assert_eq!(roots(&out), vec![(4, [1, 2, 3], None)]);
}

#[test]
fn transforms_add_translations_and_replace_orientation() {
    let scenes = vec![
        SceneNode::Transform { frames: vec![frame(Some([10, 0, -5]), None)], child: 1 },
        SceneNode::Group { children: vec![2, 4] },
        SceneNode::Transform { frames: vec![frame(Some([1, 1, 1]), Some("20"))], child: 3 },
        SceneNode::Shape { models: vec![0] },
        SceneNode::Transform { frames: vec![frame(None, None)], child: 5 },
        SceneNode::Shape { models: vec![1] },
    ];
    let mut out = Vec::new();
    process_scene_node(0, &scenes, [100, 100, 100], None, &mut out);
    assert_eq!(
        roots(&out),
        vec![(0, [111, 101, 96], Some(2)), (1, [110, 100, 95], Some(4))]
    );
}

#[test]
fn group_without_children_places_nothing() {
    let scenes = vec![SceneNode::Group { children: vec![] }];
    let mut out = Vec::new();
    process_scene_node(0, &scenes, [0, 0, 0], Some(7), &mut out);
    assert!(out.is_empty());
}

#[test]
fn shared_children_are_visited_each_time() {
    let scenes = vec![
        SceneNode::Group { children: vec![1, 1] },
        SceneNode::Shape { models: vec![2] },
    ];
    let mut out = vec![ShapeInstance { model_id: 99, root: [0, 0, 0], oriented_by: None }];
    process_scene_node(0, &scenes, [5, 6, 7], None, &mut out);
    assert_eq!(
        roots(&out),
        vec![(99, [0, 0, 0], None), (2, [5, 6, 7], None), (2, [5, 6, 7], None)]
    );
}

#[test]
fn scene_checks_finds_problems() {
    let good = vec![
        SceneNode::Transform { frames: vec![frame(None, None)], child: 1 },
        SceneNode::Shape { models: vec![3] },
    ];
    assert!(scene_checks(&good, 0, 2));
    assert!(scene_checks(&good, 0, 1));
    assert!(!scene_checks(&good, 0, 0));
    assert!(!scene_checks(&good, 2, 5));
    let cyclic = vec![SceneNode::Group { children: vec![0] }];
    assert!(!scene_checks(&cyclic, 0, 50));
    let two_frames = vec![
        SceneNode::Transform { frames: vec![frame(None, None), frame(None, None)], child: 1 },
        SceneNode::Shape { models: vec![3] },
    ];
    assert!(!scene_checks(&two_frames, 0, 5));
    let no_model = vec![SceneNode::Shape { models: vec![] }];
    assert!(!scene_checks(&no_model, 0, 5));
}

#[test]
fn a_shape_keeps_the_orientation_of_its_nearest_transform() {
    // the inner transform's frame replaces the outer one's
    let scenes = vec![
        SceneNode::Transform { frames: vec![frame(None, Some("0"))], child: 1 },
        SceneNode::Transform { frames: vec![frame(Some([0, 2, 0]), Some("4"))], child: 2 },
        SceneNode::Shape { models: vec![5] },
    ];
    let mut out = Vec::new();
    process_scene_node(0, &scenes, [0, 0, 0], None, &mut out);
    assert_eq!(roots(&out), vec![(5, [0, 2, 0], Some(1))]);
}
