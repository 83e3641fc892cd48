use tf_tree::FrameUpdate;
use tf_tree::TfError;
use tf_tree::TfTree;
use tf_tree::Transform;
use tf_tree::compose;

fn tf(tx: f64, ty: f64, tz: f64, rx: f64, ry: f64, rz: f64, rw: f64) -> Transform {
    Transform {
        translation: glam::DVec3::new(tx, ty, tz),
        rotation: glam::DQuat::from_xyzw(rx, ry, rz, rw),
    }
}

fn shift(tx: f64, ty: f64, tz: f64) -> Transform {
    tf(tx, ty, tz, 0.0, 0.0, 0.0, 1.0)
}

fn approx(a: f64, b: f64) -> bool {
    (a - b).abs() < 1e-9
}

fn tf_approx(a: &Transform, b: &Transform) -> bool {
    approx(a.translation.x, b.translation.x)
        && approx(a.translation.y, b.translation.y)
        && approx(a.translation.z, b.translation.z)
        && approx(a.rotation.x, b.rotation.x)
        && approx(a.rotation.y, b.rotation.y)
        && approx(a.rotation.z, b.rotation.z)
        && approx(a.rotation.w, b.rotation.w)
}

fn world_robot_sensor() -> TfTree {
    let mut t = TfTree::new();
    t.add_frame("world", None, shift(0.0, 0.0, 0.0)).unwrap();
    t.add_frame("robot", Some("world".to_string()), shift(1.0, 0.0, 0.0)).unwrap();
    t.add_frame("sensor", Some("robot".to_string()), shift(0.0, 1.0, 0.0)).unwrap();
    t
}

fn sorted(mut v: Vec<String>) -> Vec<String> {
    v.sort();
    v
}

fn snapshot_fingerprint(t: &TfTree) -> Vec<(String, Option<String>, [f64; 7])> {
    t.to_snapshot()
        .into_iter()
        .map(|e| {
            (
                e.id,
                e.parent_id,
                [
                    e.transform.translation.x,
                    e.transform.translation.y,
                    e.transform.translation.z,
                    e.transform.rotation.x,
                    e.transform.rotation.y,
                    e.transform.rotation.z,
                    e.transform.rotation.w,
                ],
            )
        })
        .collect()
}

#[test]
fn scenario_world_robot_sensor() {
    let mut t = world_robot_sensor();
    let sensor_world = t.get_world_transform("sensor").unwrap();
    assert!(tf_approx(&sensor_world, &shift(1.0, 1.0, 0.0)));
    let to_world = t.get_transform("sensor", "world").unwrap();
    assert!(tf_approx(&to_world, &shift(-1.0, -1.0, 0.0)));
    let stale = t.update_frame("robot", shift(2.0, 0.0, 0.0)).unwrap();
    assert_eq!(sorted(stale), vec!["robot".to_string(), "sensor".to_string()]);
    let sensor_world = t.get_world_transform("sensor").unwrap();
    assert!(tf_approx(&sensor_world, &shift(2.0, 1.0, 0.0)));
}

#[test]
fn get_transform_same_frame_is_identity() {
    let mut t = world_robot_sensor();
    let r = t.get_transform("sensor", "sensor").unwrap();
    assert!(tf_approx(&r, &shift(0.0, 0.0, 0.0)));
    let r = t.get_transform("world", "world").unwrap();
    assert!(tf_approx(&r, &shift(0.0, 0.0, 0.0)));
}

#[test]
fn get_transform_round_trip_is_identity() {
    let mut t = world_robot_sensor();
    const SIN45: f64 = std::f64::consts::FRAC_1_SQRT_2;
    t.add_frame("arm", Some("robot".to_string()), tf(0.5, 0.0, 2.0, 0.0, 0.0, SIN45, SIN45))
        .unwrap();
    let ab = t.get_transform("sensor", "arm").unwrap();
    let ba = t.get_transform("arm", "sensor").unwrap();
    let round = compose(&ab, &ba);
    assert!(tf_approx(&round, &shift(0.0, 0.0, 0.0)));
}

#[test]
fn has_frame_and_has_children() {
    let t = world_robot_sensor();
    assert!(t.has_frame("robot"));
    assert!(!t.has_frame("base"));
    assert!(t.has_children("world"));
    assert!(t.has_children("robot"));
    assert!(!t.has_children("sensor"));
    assert!(!t.has_children("base"));
}

#[test]
fn add_frame_duplicate_fails() {
    let mut t = world_robot_sensor();
    let before = snapshot_fingerprint(&t);
    let r = t.add_frame("robot", None, shift(0.0, 0.0, 0.0));
    assert!(matches!(r, Err(TfError::DuplicateFrame(ref s)) if s == "robot"));
    assert_eq!(before, snapshot_fingerprint(&t));
}

#[test]
fn add_frame_missing_parent_fails() {
    let mut t = world_robot_sensor();
    let before = snapshot_fingerprint(&t);
    let r = t.add_frame("gripper", Some("arm".to_string()), shift(0.0, 0.0, 0.0));
    assert!(matches!(r, Err(TfError::ParentNotFound(ref s)) if s == "arm"));
    assert_eq!(before, snapshot_fingerprint(&t));
}

#[test]
fn add_frame_cannot_create_cycle() {
    // A frame can only be attached to an already registered parent, and its
    // own id is still unregistered, so no insertion closes a loop. A frame
    // naming itself as parent is refused before it exists.
    let mut t = world_robot_sensor();
    let before = snapshot_fingerprint(&t);
    let r = t.add_frame("loop", Some("loop".to_string()), shift(0.0, 0.0, 0.0));
    assert!(matches!(r, Err(TfError::ParentNotFound(_))));
    assert_eq!(before, snapshot_fingerprint(&t));
}

#[test]
fn remove_frame_with_children_fails_and_mutates_nothing() {
    let mut t = world_robot_sensor();
    let before = snapshot_fingerprint(&t);
    let r = t.remove_frame("robot");
    assert!(matches!(r, Err(TfError::HasChildren(ref s)) if s == "robot"));
    assert_eq!(before, snapshot_fingerprint(&t));
    assert!(t.has_frame("robot"));
    assert!(t.has_frame("sensor"));
}

#[test]
fn remove_leaf_frame_succeeds() {
    let mut t = world_robot_sensor();
    t.remove_frame("sensor").unwrap();
    assert!(!t.has_frame("sensor"));
    assert!(!t.has_children("robot"));
    let r = t.remove_frame("sensor");
    assert!(matches!(r, Err(TfError::FrameNotFound(ref s)) if s == "sensor"));
}

#[test]
fn update_frame_unknown_id_fails() {
    let mut t = world_robot_sensor();
    let r = t.update_frame("base", shift(1.0, 0.0, 0.0));
    assert!(matches!(r, Err(TfError::FrameNotFound(ref s)) if s == "base"));
}

#[test]
fn update_frame_returns_subtree() {
    let mut t = world_robot_sensor();
    t.add_frame("arm", Some("robot".to_string()), shift(0.0, 0.0, 1.0)).unwrap();
    let stale = t.update_frame("robot", shift(3.0, 0.0, 0.0)).unwrap();
    assert_eq!(
        sorted(stale),
        vec!["arm".to_string(), "robot".to_string(), "sensor".to_string()],
    );
    let stale = t.update_frame("sensor", shift(0.0, 2.0, 0.0)).unwrap();
    assert_eq!(stale, vec!["sensor".to_string()]);
}

#[test]
fn update_leaves_other_subtrees_cached() {
    let mut t = world_robot_sensor();
    t.add_frame("beacon", Some("world".to_string()), shift(0.0, 0.0, 5.0)).unwrap();
    let stale = t.update_frame("robot", shift(4.0, 0.0, 0.0)).unwrap();
    assert!(!stale.contains(&"world".to_string()));
    assert!(!stale.contains(&"beacon".to_string()));
    let beacon = t.get_world_transform("beacon").unwrap();
    assert!(tf_approx(&beacon, &shift(0.0, 0.0, 5.0)));
}

#[test]
fn batch_parent_and_child_matches_parent_alone() {
    let mut t1 = world_robot_sensor();
    let mut t2 = world_robot_sensor();
    let batch = vec![
        FrameUpdate { id: "robot".to_string(), transform: shift(5.0, 0.0, 0.0) },
        FrameUpdate { id: "sensor".to_string(), transform: shift(0.0, 5.0, 0.0) },
    ];
    let set1 = sorted(t1.update_frames_batch(&batch).unwrap());
    let set2 = sorted(t2.update_frame("robot", shift(5.0, 0.0, 0.0)).unwrap());
    assert_eq!(set1, set2);
}

#[test]
fn batch_applies_all_transforms() {
    let mut t = world_robot_sensor();
    let batch = vec![
        FrameUpdate { id: "robot".to_string(), transform: shift(10.0, 0.0, 0.0) },
        FrameUpdate { id: "sensor".to_string(), transform: shift(0.0, 10.0, 0.0) },
    ];
    t.update_frames_batch(&batch).unwrap();
    let sensor = t.get_world_transform("sensor").unwrap();
    assert!(tf_approx(&sensor, &shift(10.0, 10.0, 0.0)));
}

#[test]
fn batch_last_update_wins() {
    let mut t = world_robot_sensor();
    let batch = vec![
        FrameUpdate { id: "robot".to_string(), transform: shift(7.0, 0.0, 0.0) },
        FrameUpdate { id: "robot".to_string(), transform: shift(8.0, 0.0, 0.0) },
    ];
    t.update_frames_batch(&batch).unwrap();
    let robot = t.get_world_transform("robot").unwrap();
    assert!(tf_approx(&robot, &shift(8.0, 0.0, 0.0)));
}

#[test]
fn batch_with_unknown_id_is_atomic() {
    let mut t = world_robot_sensor();
    let before = snapshot_fingerprint(&t);
    let batch = vec![
        FrameUpdate { id: "robot".to_string(), transform: shift(9.0, 0.0, 0.0) },
        FrameUpdate { id: "ghost_frame".to_string(), transform: shift(0.0, 0.0, 0.0) },
    ];
    let r = t.update_frames_batch(&batch);
    assert!(matches!(r, Err(TfError::FrameNotFound(ref s)) if s == "ghost_frame"));
    assert_eq!(before, snapshot_fingerprint(&t));
    let robot = t.get_world_transform("robot").unwrap();
    assert!(tf_approx(&robot, &shift(1.0, 0.0, 0.0)));
}

#[test]
fn batch_of_disjoint_roots_updates_both() {
    let mut t = TfTree::new();
    t.add_frame("a", None, shift(1.0, 0.0, 0.0)).unwrap();
    t.add_frame("b", None, shift(2.0, 0.0, 0.0)).unwrap();
    let batch = vec![
        FrameUpdate { id: "a".to_string(), transform: shift(3.0, 0.0, 0.0) },
        FrameUpdate { id: "b".to_string(), transform: shift(4.0, 0.0, 0.0) },
    ];
    let stale = sorted(t.update_frames_batch(&batch).unwrap());
    assert_eq!(stale, vec!["a".to_string(), "b".to_string()]);
}

#[test]
fn get_transform_unknown_frames_fail() {
    let mut t = world_robot_sensor();
    let r = t.get_transform("base", "world");
    assert!(matches!(r, Err(TfError::FrameNotFound(ref s)) if s == "base"));
    let r = t.get_transform("world", "base");
    assert!(matches!(r, Err(TfError::FrameNotFound(ref s)) if s == "base"));
    let r = t.get_world_transform("base");
    assert!(matches!(r, Err(TfError::FrameNotFound(ref s)) if s == "base"));
}

#[test]
fn get_transform_between_disconnected_trees_fails() {
    let mut t = TfTree::new();
    t.add_frame("a", None, shift(1.0, 0.0, 0.0)).unwrap();
    t.add_frame("b", None, shift(2.0, 0.0, 0.0)).unwrap();
    let r = t.get_transform("a", "b");
    assert!(matches!(
        r,
        Err(TfError::DisconnectedFrames(ref x, ref y)) if x == "a" && y == "b"
    ));
}

#[test]
fn get_transform_across_branches() {
    let mut t = world_robot_sensor();
    t.add_frame("beacon", Some("world".to_string()), shift(0.0, 0.0, 5.0)).unwrap();
    let r = t.get_transform("sensor", "beacon").unwrap();
    assert!(tf_approx(&r, &shift(-1.0, -1.0, 5.0)));
}

#[test]
fn snapshot_round_trip_reproduces_tree() {
    const SIN45: f64 = std::f64::consts::FRAC_1_SQRT_2;
    let mut t = world_robot_sensor();
    t.add_frame("arm", Some("robot".to_string()), tf(0.5, 0.0, 2.0, 0.0, 0.0, SIN45, SIN45))
        .unwrap();
    let snap = t.to_snapshot();
    let mut t2 = TfTree::from_snapshot(&snap).unwrap();
    assert_eq!(snapshot_fingerprint(&t), snapshot_fingerprint(&t2));
    let ids = ["world", "robot", "sensor", "arm"];
    for a in ids.iter() {
        for b in ids.iter() {
            let r1 = t.get_transform(a, b).unwrap();
            let r2 = t2.get_transform(a, b).unwrap();
            assert!(tf_approx(&r1, &r2));
        }
    }
}

#[test]
fn from_snapshot_rejects_duplicate_ids() {
    let t = world_robot_sensor();
    let mut snap = t.to_snapshot();
    let extra = snap[0].clone();
    snap.push(extra);
    let r = TfTree::from_snapshot(&snap);
    assert!(matches!(r, Err(TfError::DuplicateFrame(_))));
}

#[test]
fn from_snapshot_rejects_unknown_parent() {
    let t = world_robot_sensor();
    let mut snap = t.to_snapshot();
    // Children listed before their parent: the replay must fail.
    snap.reverse();
    let r = TfTree::from_snapshot(&snap);
    assert!(matches!(r, Err(TfError::ParentNotFound(_))));
}

#[test]
fn empty_tree_round_trip() {
    let t = TfTree::new();
    let snap = t.to_snapshot();
    assert!(snap.is_empty());
    let t2 = TfTree::from_snapshot(&snap).unwrap();
    assert!(t2.to_snapshot().is_empty());
    assert!(!t2.has_frame("world"));
}

#[test]
fn single_root_update_and_query() {
    let mut t = TfTree::new();
    t.add_frame("world", None, shift(0.0, 0.0, 0.0)).unwrap();
    let stale = t.update_frame("world", shift(0.0, 0.0, 9.0)).unwrap();
    assert_eq!(stale, vec!["world".to_string()]);
    let w = t.get_world_transform("world").unwrap();
    assert!(tf_approx(&w, &shift(0.0, 0.0, 9.0)));
}
