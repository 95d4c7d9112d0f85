use graphics::scene::{NodeData, Scene, SceneTree};

#[test]
fn new_tree_has_an_empty_root_that_is_its_own_parent() {
    let mut tree = SceneTree::new();
    let c = tree.insert(NodeData::Empty);
    let root = tree.get(c).unwrap().parent_id;
    let r = tree.get(root).unwrap();
    assert_eq!(r.id, root);
    assert_eq!(r.parent_id, root);
    assert!(r.is_root());
    assert_eq!(r.data, NodeData::Empty);
    assert_eq!(r.children_ids, vec![c]);
}

#[test]
fn insert_puts_the_node_last_under_the_root() {
    let mut tree = SceneTree::new();
    let a = tree.insert(NodeData::Mesh(1));
    let b = tree.insert(NodeData::Camera(2));
    assert_ne!(a, b);
    let root = tree.get(a).unwrap().parent_id;
    assert_eq!(tree.get(root).unwrap().children_ids, vec![a, b]);
    let nb = tree.get(b).unwrap();
    assert_eq!(nb.id, b);
    assert_eq!(nb.parent_id, root);
    assert_eq!(nb.data, NodeData::Camera(2));
    assert!(nb.children_ids.is_empty());
    assert!(!nb.is_root());
}

#[test]
fn insert_under_a_missing_node_gives_none() {
    let mut tree = SceneTree::new();
    let a = tree.insert(NodeData::Empty);
    assert_eq!(tree.insert_under(NodeData::Empty, 12345), None);
    let root = tree.get(a).unwrap().parent_id;
    assert_eq!(tree.get(root).unwrap().children_ids, vec![a]);
}

#[test]
fn insert_under_links_child_and_parent() {
    let mut tree = SceneTree::new();
    let a = tree.insert(NodeData::Empty);
    let c = tree.insert_under(NodeData::Mesh(7), a).unwrap();
    assert_eq!(tree.get(c).unwrap().parent_id, a);
    assert_eq!(tree.get(a).unwrap().children_ids, vec![c]);
}

#[test]
fn ids_that_differ_only_in_bit_32_name_the_same_node() {
    let mut tree = SceneTree::new();
    let a = tree.insert(NodeData::Mesh(3));
    let low = a & 0xffff_ffff;
    assert_eq!(tree.get(low).unwrap().id, a);
}

#[test]
fn delete_reports_each_error() {
    let mut tree = SceneTree::new();
    let a = tree.insert(NodeData::Empty);
    let c = tree.insert_under(NodeData::Empty, a).unwrap();
    let root = tree.get(a).unwrap().parent_id;
    assert_eq!(tree.delete(12345), Err(String::from("No such node with specified id")));
    assert_eq!(tree.delete(root), Err(String::from("Cannot remove root from scene tree")));
    assert_eq!(tree.delete(a), Err(String::from("Cannot remove interstitial node")));
    assert!(tree.get(a).is_some());
    assert!(tree.get(c).is_some());
}

#[test]
fn delete_takes_a_leaf_out_of_its_parent() {
    let mut tree = SceneTree::new();
    let a = tree.insert(NodeData::Empty);
    let b = tree.insert(NodeData::Empty);
    let c = tree.insert(NodeData::Empty);
    assert_eq!(tree.delete(b), Ok(()));
    assert!(tree.get(b).is_none());
    let root = tree.get(a).unwrap().parent_id;
    assert_eq!(tree.get(root).unwrap().children_ids, vec![a, c]);
    assert_eq!(tree.delete(b), Err(String::from("No such node with specified id")));
}

#[test]
fn delete_undoes_insert_under() {
    let mut tree = SceneTree::new();
    let a = tree.insert(NodeData::Mesh(1));
    let b = tree.insert_under(NodeData::Mesh(2), a).unwrap();
    let before_a = tree.get(a).unwrap().children_ids.clone();
    let c = tree.insert_under(NodeData::Camera(5), a).unwrap();
    assert_eq!(tree.delete(c), Ok(()));
    assert_eq!(tree.get(a).unwrap().children_ids, before_a);
    assert!(tree.get(c).is_none());
    assert_eq!(tree.get(b).unwrap().parent_id, a);
    // deleting a parent once its children are gone is allowed
    assert_eq!(tree.delete(b), Ok(()));
    assert_eq!(tree.delete(a), Ok(()));
}

#[test]
fn ancestry_climbs_to_the_root() {
    let mut tree = SceneTree::new();
    let a = tree.insert(NodeData::Empty);
    let b = tree.insert_under(NodeData::Empty, a).unwrap();
    let c = tree.insert_under(NodeData::Mesh(4), b).unwrap();
    let root = tree.get(a).unwrap().parent_id;
    assert_eq!(tree.ancestry(c), Some(vec![c, b, a, root]));
    assert_eq!(tree.ancestry(root), Some(vec![root]));
    assert_eq!(tree.ancestry(12345), None);
}

#[test]
fn mesh_nodes_come_last_child_first() {
    let mut tree = SceneTree::new();
    let a = tree.insert(NodeData::Mesh(1));
    let b = tree.insert(NodeData::Mesh(2));
    let c = tree.insert_under(NodeData::Mesh(3), a).unwrap();
    let _cam = tree.insert_under(NodeData::Camera(9), b).unwrap();
    assert_eq!(tree.mesh_nodes(), vec![(b, 2), (a, 1), (c, 3)]);
}

#[test]
fn mesh_nodes_of_an_empty_tree() {
    let tree = SceneTree::new();
    assert!(tree.mesh_nodes().is_empty());
}

#[test]
fn scene_camera_follows_the_last_camera_put_in() {
    let mut scene = Scene::new();
    assert!(scene.active_camera.is_none());
    assert!(scene.get_active_camera().is_none());
    let m = scene.insert(NodeData::Mesh(1));
    assert!(scene.active_camera.is_none());
    let cam = scene.insert(NodeData::Camera(0));
    assert_eq!(scene.active_camera, Some(cam));
    assert_eq!(scene.get_active_camera().unwrap().id, cam);
    let cam2 = scene.insert_under(NodeData::Camera(1), m).unwrap();
    assert_eq!(scene.active_camera, Some(cam2));
    assert_eq!(scene.insert_under(NodeData::Camera(2), 12345), None);
    assert_eq!(scene.active_camera, Some(cam2));
}

#[test]
fn scene_delete_leaves_the_camera_id() {
    let mut scene = Scene::new();
    let cam = scene.insert(NodeData::Camera(0));
    assert_eq!(scene.delete(cam), Ok(()));
    assert_eq!(scene.active_camera, Some(cam));
    assert!(scene.get_active_camera().is_none());
    assert!(scene.get(cam).is_none());
}

#[test]
fn light_nodes_are_kept_apart_from_meshes() {
    let mut tree = SceneTree::new();
    let m = tree.insert(NodeData::Mesh(1));
    let l1 = tree.insert_under(NodeData::Light(5), m).unwrap();
    let l2 = tree.insert(NodeData::Light(6));
    assert_eq!(tree.light_nodes(), vec![(l2, 6), (l1, 5)]);
    assert_eq!(tree.mesh_nodes(), vec![(m, 1)]);
}

#[test]
fn every_mesh_is_listed_once() {
    let mut tree = SceneTree::new();
    let mut ids = Vec::new();
    let a = tree.insert(NodeData::Mesh(0));
    ids.push((a, 0));
    let b = tree.insert_under(NodeData::Empty, a).unwrap();
    for h in 1..6u64 {
        let parent = if h % 2 == 0 { a } else { b };
        let id = tree.insert_under(NodeData::Mesh(h), parent).unwrap();
        ids.push((id, h));
    }
    let _l = tree.insert_under(NodeData::Light(9), b).unwrap();
    let listed = tree.mesh_nodes();
    assert_eq!(listed.len(), ids.len());
    for x in &ids {
        assert_eq!(listed.iter().filter(|y| *y == x).count(), 1);
    }
}

#[test]
fn deleted_leaf_is_gone_and_its_parent_stays() {
    let mut tree = SceneTree::new();
    let a = tree.insert(NodeData::Empty);
    let b = tree.insert_under(NodeData::Mesh(1), a).unwrap();
    assert_eq!(tree.delete(b), Ok(()));
    assert!(tree.get(b).is_none());
    assert!(tree.get(a).is_some());
    assert!(tree.get(a).unwrap().children_ids.is_empty());
}
