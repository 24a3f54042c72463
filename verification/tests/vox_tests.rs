use dot_vox::{Color, Dict, DotVoxData, Frame, Model, SceneNode as VoxNode, ShapeModel, Size, Voxel};
use voxel_raymarcher::scene::SceneNode;
use voxel_raymarcher::vox::parse_vox;

fn sample() -> DotVoxData {
    let mut t = Dict::new();
    t.insert("_t".to_owned(), "1 -2 3".to_owned());
    t.insert("_r".to_owned(), "4".to_owned());
    DotVoxData {
        version: 150,
        index_map: Vec::new(),
        models: vec![Model {
            size: Size { x: 2, y: 3, z: 4 },
            voxels: vec![Voxel { x: 0, y: 1, z: 2, i: 7 }, Voxel { x: 1, y: 2, z: 3, i: 9 }],
        }],
        palette: vec![Color { r: 10, g: 20, b: 30, a: 255 }, Color { r: 1, g: 2, b: 3, a: 4 }],
        materials: Vec::new(),
        scenes: vec![
            VoxNode::Transform { attributes: Dict::new(), frames: vec![Frame::new(t)], child: 1, layer_id: 0 },
            VoxNode::Group { attributes: Dict::new(), children: vec![2] },
            VoxNode::Shape {
                attributes: Dict::new(),
                models: vec![ShapeModel { model_id: 0, attributes: Dict::new() }],
            },
        ],
        layers: Vec::new(),
    }
}

#[test]
fn parse_vox_reads_models_palette_and_scenes() {
    let mut bytes = Vec::new();
    sample().write_vox(&mut bytes).unwrap();
    let f = parse_vox(&bytes).expect("a valid file");
    assert_eq!(f.palette, vec![[10, 20, 30, 255], [1, 2, 3, 4]]);
    assert_eq!(f.models.len(), 1);
    assert_eq!(f.models[0].size, [2, 3, 4]);
    assert_eq!(f.models[0].voxels, vec![[0, 1, 2, 7], [1, 2, 3, 9]]);
    assert_eq!(f.scenes.len(), 3);
    match &f.scenes[0] {
        SceneNode::Transform { frames, child } => {
            assert_eq!(*child, 1);
            assert_eq!(frames.len(), 1);
            assert_eq!(frames[0].position, Some([1, -2, 3]));
            assert_eq!(frames[0].rotation, Some("4".to_string()));
        },
        _ => panic!("expected a transform"),
    }
    match &f.scenes[1] {
        SceneNode::Group { children } => assert_eq!(children, &vec![2]),
        _ => panic!("expected a group"),
    }
    match &f.scenes[2] {
        SceneNode::Shape { models } => assert_eq!(models, &vec![0]),
        _ => panic!("expected a shape"),
    }
}

#[test]
fn parse_vox_leaves_orientations_undecoded() {
    // "_r" = "0" names no rotation; decoding it would fail, so parsing
    // must not decode it
    let mut data = sample();
    let mut t = Dict::new();
    t.insert("_r".to_owned(), "0".to_owned());
    data.scenes[0] = VoxNode::Transform { attributes: Dict::new(), frames: vec![Frame::new(t)], child: 1, layer_id: 0 };
    let mut bytes = Vec::new();
    data.write_vox(&mut bytes).unwrap();
    let f = parse_vox(&bytes).expect("a valid file");
    match &f.scenes[0] {
        SceneNode::Transform { frames, .. } => {
            assert_eq!(frames[0].rotation, Some("0".to_string()));
            assert_eq!(frames[0].position, None);
        },
        _ => panic!("expected a transform"),
    }
}

#[test]
fn parse_vox_refuses_other_bytes() {
    assert!(parse_vox(b"not a vox file").is_none());
    assert!(parse_vox(&[]).is_none());
}
