use std::f64::consts::FRAC_PI_2;

use bevy::math::{DVec3, Isometry3d, Quat, Vec3, Vec3A};
use transform_tree::{FileNode, FileTransformTree, FileTransformTreeError, TransformTree};

fn file_node(name: &str, parent: Option<&str>, t: [f64; 3], r: [f64; 3]) -> FileNode {
    FileNode {
        name: name.to_string(),
        parent: parent.map(|p| p.to_string()),
        t: DVec3::new(t[0], t[1], t[2]),
        r: DVec3::new(r[0], r[1], r[2]),
    }
}

fn file_tree(nodes: Vec<FileNode>) -> FileTransformTree {
    FileTransformTree { version: 1, nodes }
}

fn shift(x: f32, y: f32, z: f32) -> Isometry3d {
    Isometry3d::from_translation(Vec3::new(x, y, z))
}

fn close(a: Vec3A, b: Vec3A) -> bool {
    a.abs_diff_eq(b, 1e-5)
}

#[test]
fn concrete_scenario_two_nodes() {
    let ftree = file_tree(vec![
        file_node("arm_base", None, [0.0, 0.0, 0.0], [0.0, 0.0, 0.0]),
        file_node("lidar", Some("arm_base"), [0.5, 0.0, 0.0], [FRAC_PI_2, 0.0, 0.0]),
    ]);
    let tree = TransformTree::try_from(ftree).unwrap();
    assert_eq!(tree.len(), 2);
    let names = tree.name_hash().unwrap();
    let base = *names.get("arm_base").unwrap();
    let lidar = *names.get("lidar").unwrap();
    assert_eq!(tree.parent(base), None);
    assert_eq!(tree.parent(lidar), Some(base));

    let base_world = tree.world(base);
    assert!(close(base_world.translation, Vec3A::ZERO));
    assert!(base_world.rotation.abs_diff_eq(Quat::IDENTITY, 1e-6));

    let lidar_world = tree.world(lidar);
    assert!(close(lidar_world.translation, Vec3A::new(0.5, 0.0, 0.0)));
    let quarter_x = Quat::from_rotation_x(std::f32::consts::FRAC_PI_2);
    assert!(lidar_world.rotation.abs_diff_eq(quarter_x, 1e-6));
    assert_eq!(lidar_world, tree.local(lidar));
    // The rotation turns +Y into +Z.
    let y = lidar_world.rotation * Vec3::Y;
    assert!(y.abs_diff_eq(Vec3::Z, 1e-6));
}

#[test]
fn duplicate_name_in_store_is_reported() {
    let mut tree = TransformTree::new();
    tree.add_node("x", Isometry3d::IDENTITY, None);
    tree.add_node("y", Isometry3d::IDENTITY, None);
    tree.add_node("x", Isometry3d::IDENTITY, None);
    match tree.name_hash() {
        Err(FileTransformTreeError::Duplicate(name)) => assert_eq!(name, "x"),
        other => panic!("unexpected {:?}", other.map(|m| m.len())),
    }
}

#[test]
fn first_repeated_name_is_reported() {
    let ftree = file_tree(vec![
        file_node("a", None, [0.0; 3], [0.0; 3]),
        file_node("b", None, [0.0; 3], [0.0; 3]),
        file_node("b", None, [0.0; 3], [0.0; 3]),
        file_node("a", None, [0.0; 3], [0.0; 3]),
    ]);
    match ftree.name_hash() {
        Err(FileTransformTreeError::Duplicate(name)) => assert_eq!(name, "b"),
        other => panic!("unexpected {:?}", other.map(|m| m.len())),
    }
    match TransformTree::try_from(ftree) {
        Err(FileTransformTreeError::Duplicate(name)) => assert_eq!(name, "b"),
        other => panic!("unexpected {:?}", other.map(|t| t.len())),
    }
}

#[test]
fn unique_names_index_every_node_once() {
    let mut tree = TransformTree::new();
    let a = tree.add_node("a", Isometry3d::IDENTITY, None);
    let b = tree.add_node("b", Isometry3d::IDENTITY, Some(a));
    let c = tree.add_node("c", Isometry3d::IDENTITY, Some(b));
    let m = tree.name_hash().unwrap();
    assert_eq!(m.len(), 3);
    assert_eq!(m.get("a"), Some(&a));
    assert_eq!(m.get("b"), Some(&b));
    assert_eq!(m.get("c"), Some(&c));
    assert_eq!(m.get("d"), None);
}

#[test]
fn empty_file_gives_empty_store() {
    let tree = TransformTree::try_from(file_tree(vec![])).unwrap();
    assert_eq!(tree.len(), 0);
    assert_eq!(tree.name_hash().unwrap().len(), 0);
}

#[test]
fn unknown_parent_is_reported() {
    let ftree = file_tree(vec![
        file_node("a", None, [0.0; 3], [0.0; 3]),
        file_node("b", Some("ghost"), [0.0; 3], [0.0; 3]),
        file_node("c", Some("phantom"), [0.0; 3], [0.0; 3]),
    ]);
    match TransformTree::try_from(ftree) {
        Err(FileTransformTreeError::ParentMissing(name)) => assert_eq!(name, "ghost"),
        other => panic!("unexpected {:?}", other.map(|t| t.len())),
    }
}

#[test]
fn parent_cycle_is_reported() {
    let ftree = file_tree(vec![
        file_node("root", None, [0.0; 3], [0.0; 3]),
        file_node("a", Some("b"), [0.0; 3], [0.0; 3]),
        file_node("b", Some("a"), [0.0; 3], [0.0; 3]),
    ]);
    assert!(matches!(
        TransformTree::try_from(ftree),
        Err(FileTransformTreeError::Cycle(_))
    ));
    let own_parent = file_tree(vec![file_node("s", Some("s"), [0.0; 3], [0.0; 3])]);
    match TransformTree::try_from(own_parent) {
        Err(FileTransformTreeError::Cycle(name)) => assert_eq!(name, "s"),
        other => panic!("unexpected {:?}", other.map(|t| t.len())),
    }
}

#[test]
fn parents_may_come_after_children_in_the_file() {
    let ftree = file_tree(vec![
        file_node("tip", Some("mid"), [0.0, 0.0, 3.0], [0.0; 3]),
        file_node("mid", Some("base"), [0.0, 2.0, 0.0], [0.0; 3]),
        file_node("base", None, [1.0, 0.0, 0.0], [0.0; 3]),
    ]);
    let tree = TransformTree::try_from(ftree).unwrap();
    assert_eq!(tree.parent(0), Some(1));
    assert_eq!(tree.parent(1), Some(2));
    assert_eq!(tree.parent(2), None);
    assert_eq!(tree.children(2), &vec![1]);
    assert!(close(tree.world(0).translation, Vec3A::new(1.0, 2.0, 3.0)));
    assert!(close(tree.world(1).translation, Vec3A::new(1.0, 2.0, 0.0)));
    for i in 0..3 {
        assert!(!tree.is_dirty(i));
    }
}

#[test]
fn update_world_composes_along_the_chain() {
    let mut tree = TransformTree::new();
    let quarter_z = Isometry3d::new(Vec3::new(1.0, 0.0, 0.0), Quat::from_rotation_z(std::f32::consts::FRAC_PI_2));
    let a = tree.add_node("a", quarter_z, None);
    let b = tree.add_node("b", shift(1.0, 0.0, 0.0), Some(a));
    let c = tree.add_node("c", shift(0.0, 0.0, 5.0), None);
    let d = tree.add_node("d", shift(2.0, 0.0, 0.0), Some(c));
    // Moving `d` under `b` leaves `d` stale until the update.
    tree.set_parent(d, Some(b));
    assert!(tree.is_dirty(d));
    tree.update_world();
    for i in 0..tree.len() {
        assert!(!tree.is_dirty(i));
    }
    // a: (1,0,0) turned a quarter about Z; b: one step along a's X, which is world Y.
    assert!(close(tree.world(b).translation, Vec3A::new(1.0, 1.0, 0.0)));
    assert!(close(tree.world(d).translation, Vec3A::new(1.0, 3.0, 0.0)));
    let expected = *tree.world(a) * *tree.local(b) * *tree.local(d);
    assert!(close(tree.world(d).translation, expected.translation));
    assert!(close(tree.world(c).translation, Vec3A::new(0.0, 0.0, 5.0)));
}

#[test]
fn set_parent_marks_exactly_the_subtree() {
    let mut tree = TransformTree::new();
    let a = tree.add_node("a", shift(1.0, 0.0, 0.0), None);
    let b = tree.add_node("b", shift(0.0, 1.0, 0.0), Some(a));
    let c = tree.add_node("c", shift(0.0, 0.0, 1.0), Some(b));
    let d = tree.add_node("d", shift(2.0, 0.0, 0.0), None);
    let e = tree.add_node("e", shift(0.0, 2.0, 0.0), Some(a));
    for i in 0..tree.len() {
        assert!(!tree.is_dirty(i));
    }
    tree.set_parent(b, Some(d));
    assert_eq!(tree.parent(b), Some(d));
    assert!(tree.children(a).iter().all(|&k| k != b));
    assert!(tree.children(d).contains(&b));
    assert!(tree.is_dirty(b));
    assert!(tree.is_dirty(c));
    assert!(!tree.is_dirty(a));
    assert!(!tree.is_dirty(d));
    assert!(!tree.is_dirty(e));
    // Marking an already dirty node changes nothing.
    tree.mark_dirty(b);
    assert!(tree.is_dirty(b) && tree.is_dirty(c));
    assert!(!tree.is_dirty(a) && !tree.is_dirty(d) && !tree.is_dirty(e));
    tree.update_world();
    assert!(close(tree.world(c).translation, Vec3A::new(2.0, 1.0, 1.0)));
    // Making a node a root.
    tree.set_parent(b, None);
    assert_eq!(tree.parent(b), None);
    assert!(tree.children(d).is_empty());
    tree.update_world();
    assert!(close(tree.world(c).translation, Vec3A::new(0.0, 1.0, 1.0)));
}

#[test]
fn mark_dirty_reaches_all_descendants() {
    let mut tree = TransformTree::new();
    let r = tree.add_node("r", Isometry3d::IDENTITY, None);
    let x = tree.add_node("x", Isometry3d::IDENTITY, Some(r));
    let y = tree.add_node("y", Isometry3d::IDENTITY, Some(r));
    let z = tree.add_node("z", Isometry3d::IDENTITY, Some(y));
    let other = tree.add_node("other", Isometry3d::IDENTITY, None);
    tree.mark_dirty(r);
    for i in [r, x, y, z] {
        assert!(tree.is_dirty(i));
    }
    assert!(!tree.is_dirty(other));
}

#[test]
fn add_node_with_unknown_parent_makes_a_root() {
    let mut tree = TransformTree::new();
    let a = tree.add_node("a", shift(1.0, 0.0, 0.0), Some(7));
    assert_eq!(a, 0);
    assert_eq!(tree.parent(a), None);
    assert_eq!(tree.world(a), &shift(1.0, 0.0, 0.0));
    let b = tree.add_node("b", shift(0.0, 1.0, 0.0), Some(1));
    assert_eq!(b, 1);
    assert_eq!(tree.parent(b), None);
    assert!(!tree.is_dirty(b));
    let c = tree.add_node("c", shift(0.0, 0.0, 1.0), Some(a));
    assert_eq!(tree.parent(c), Some(a));
    assert_eq!(tree.children(a), &vec![c]);
    assert!(close(tree.world(c).translation, Vec3A::new(1.0, 0.0, 1.0)));
    assert!(!tree.is_dirty(c));
}

#[test]
fn add_node_under_a_stale_parent_is_stale() {
    let mut tree = TransformTree::new();
    let a = tree.add_node("a", Isometry3d::IDENTITY, None);
    tree.mark_dirty(a);
    let b = tree.add_node("b", shift(1.0, 0.0, 0.0), Some(a));
    assert!(tree.is_dirty(b));
    tree.update_world();
    assert!(!tree.is_dirty(b));
}

#[test]
fn round_trip_keeps_names_parents_and_transforms() {
    let written = vec![
        file_node("arm_base", None, [0.0, 0.0, 0.0], [0.0, 0.0, 0.0]),
        file_node("lidar", Some("arm_base"), [0.5, 0.0, 0.0], [FRAC_PI_2, 0.0, 0.0]),
        file_node("camera", Some("lidar"), [0.0, 0.25, -1.0], [0.1, -0.2, 0.3]),
    ];
    let expected: Vec<(String, Option<String>, DVec3, DVec3)> = written
        .iter()
        .map(|n| (n.name.clone(), n.parent.clone(), n.t, n.r))
        .collect();
    let tree = TransformTree::try_from(file_tree(written)).unwrap();
    let back = tree.to_file();
    assert_eq!(back.version, 1);
    assert_eq!(back.nodes.len(), expected.len());
    for (node, (name, parent, t, r)) in back.nodes.iter().zip(expected.iter()) {
        assert_eq!(&node.name, name);
        assert_eq!(&node.parent, parent);
        assert!(node.t.abs_diff_eq(*t, 1e-6), "{:?} vs {:?}", node.t, t);
        assert!(node.r.abs_diff_eq(*r, 1e-5), "{:?} vs {:?}", node.r, r);
    }
}
