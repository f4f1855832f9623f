use bridgetree::position::{Altitude, Position};
use bridgetree::frontier::{Frontier, NonEmptyFrontier};
use bridgetree::fragment::AuthFragment;
use bridgetree::bridge::MerkleBridge;
use bridgetree::tree::BridgeTree;

fn alt_values(alts: &[Altitude]) -> Vec<u8> {
    alts.iter().map(|a| a.0).collect()
}

#[test]
fn position_ommer_altitudes() {
    // 11 = 0b1011: populated ommers at set bits above bit 0.
    assert_eq!(alt_values(&Position(11).ommer_altitudes()), vec![1, 3]);
    assert_eq!(alt_values(&Position(0).ommer_altitudes()), Vec::<u8>::new());
    assert_eq!(alt_values(&Position(8).ommer_altitudes()), vec![3]);
    // Count equals popcount minus the low bit.
    assert_eq!(Position(11).ommer_altitudes().len(), 3 - 1);
    assert_eq!(Position(12).ommer_altitudes().len(), 2 - 0);
}

#[test]
fn position_required_altitudes() {
    // 10 = 0b1010: clear bits up to one above the top ommer.
    assert_eq!(alt_values(&Position(10).altitudes_required()), vec![0, 2, 4]);
    assert_eq!(alt_values(&Position(0).altitudes_required()), vec![0, 1]);
    // The full list extends the same prefix out to altitude 64.
    let full = alt_values(&Position(10).all_altitudes_required());
    assert_eq!(&full[..3], &[0, 2, 4]);
    assert_eq!(full.len(), 64 - 2);
    assert!(Position(7).is_complete(Altitude(3)));
    assert!(!Position(6).is_complete(Altitude(3)));
}

#[test]
fn frontier_append_and_root() {
    let mut f = NonEmptyFrontier::<String>::new("a".to_string());
    assert_eq!(f.size(), 1);
    assert_eq!(f.leaf_value(), "a");
    f.append("b".to_string());
    f.append("c".to_string());
    assert_eq!(f.size(), 3);
    assert_eq!(f.position(), Position(2));
    assert_eq!(f.leaf_value(), "c");
    assert_eq!(f.root(), "abc_");

    // Sibling witnessing from the frontier: at altitude 0 the odd member of
    // the rightmost pair, at altitude 1 the completed pair itself.
    assert_eq!(f.witness(Altitude(0)), None);
    f.append("d".to_string());
    assert_eq!(f.witness(Altitude(0)), Some("d".to_string()));
    assert_eq!(f.witness(Altitude(1)), Some("cd".to_string()));
    assert_eq!(f.witness_incomplete(Altitude(1)), None);
    assert_eq!(f.witness_incomplete(Altitude(4)), Some("cd______________".to_string()));
}

#[test]
fn bounded_frontier() {
    let mut f = Frontier::<String, 1>::empty();
    assert_eq!(f.root(), "__");
    assert_eq!(f.position(), None);
    assert_eq!(f.dynamic_memory_usage(), 0);
    assert!(f.append(&"a".to_string()));
    assert!(f.append(&"b".to_string()));
    assert!(!f.append(&"c".to_string()));
    assert_eq!(f.root(), "ab");
    assert_eq!(f.position(), Some(Position(1)));

    // The constructor refuses a frontier beyond the depth cap.
    let mut big = NonEmptyFrontier::<String>::new("a".to_string());
    big.append("b".to_string());
    big.append("c".to_string());
    assert!(Frontier::<String, 1>::new(big).is_none());
    let small = NonEmptyFrontier::<String>::new("a".to_string());
    assert!(Frontier::<String, 1>::new(small).is_some());
}

#[test]
fn fragment_fuse_and_successor() {
    let mut f = AuthFragment::<String>::new(Position(2));
    assert!(!f.is_complete());
    assert_eq!(f.next_required_altitude(), Some(Altitude(0)));

    // Augment from a frontier at position 3: the altitude-0 sibling of the
    // anchor leaf "c" is "d".
    let mut frontier = NonEmptyFrontier::<String>::new("a".to_string());
    frontier.append("b".to_string());
    frontier.append("c".to_string());
    frontier.append("d".to_string());
    f.augment(&frontier);
    assert_eq!(f.values, vec!["d".to_string()]);
    assert_eq!(f.next_required_altitude(), Some(Altitude(2)));

    // A successor continues the count with no values; fusing rebuilds the
    // whole fragment.
    let succ = f.successor();
    assert_eq!(succ.altitudes_observed, 1);
    assert!(succ.values.is_empty());
    let fused = f.fuse(&succ).expect("direct continuation fuses");
    assert_eq!(fused.altitudes_observed, 1);
    assert_eq!(fused.values, vec!["d".to_string()]);

    // A fragment for another anchor does not fuse.
    let other = AuthFragment::<String>::new(Position(4));
    assert!(f.fuse(&other).is_none());
}

#[test]
fn bridge_fuse_chain() {
    let mut b0 = MerkleBridge::<String>::new("a".to_string());
    b0.append("b".to_string());
    let mut b1 = b0.successor(0);
    b1.append("c".to_string());
    let fused = b0.fuse(&b1).expect("adjacent bridges fuse");
    assert_eq!(fused.frontier.position(), Position(2));
    assert_eq!(fused.root(), "abc_");

    // A bridge whose prior position does not match refuses to fuse.
    let stray = MerkleBridge::<String>::new("z".to_string()).successor(7);
    assert!(b1.fuse(&stray).is_none());

    let chain = vec![b0.duplicate(), b1.duplicate()];
    let all = MerkleBridge::fuse_all(&chain).expect("chain fuses");
    assert_eq!(all.frontier.position(), b1.frontier.position());
    assert!(MerkleBridge::<String>::fuse_all(&[]).is_none());
    assert!(b1.can_follow(&b0));
}

#[test]
fn witness_is_idempotent() {
    let mut t = BridgeTree::<String, 4>::new(100);
    assert!(!t.witness());
    t.append(&"a".to_string());
    assert!(t.witness());
    let bridges_after_first = t.bridges.len();
    let saved_after_first = t.saved.len();
    assert!(t.witness());
    assert_eq!(t.saved.len(), saved_after_first);
    assert_eq!(t.bridges.len(), bridges_after_first);
}

#[test]
fn unknown_witness_operations() {
    let mut t = BridgeTree::<String, 4>::new(100);
    t.append(&"a".to_string());
    assert_eq!(t.authentication_path(&"b".to_string()), None);
    assert!(!t.remove_witness(&"b".to_string()));
    t.witness();
    assert!(t.remove_witness(&"a".to_string()));
    assert_eq!(t.authentication_path(&"a".to_string()), None);
}

#[test]
fn rewind_empty_stack() {
    let mut t = BridgeTree::<String, 4>::new(100);
    assert!(!t.rewind());
    t.append(&"a".to_string());
    assert!(!t.rewind());
}

#[test]
fn rewind_restores_root() {
    let mut t = BridgeTree::<String, 4>::new(100);
    t.append(&"a".to_string());
    t.append(&"b".to_string());
    let before = t.root();
    t.checkpoint();
    t.append(&"c".to_string());
    t.append(&"d".to_string());
    assert!(t.rewind());
    assert_eq!(t.root(), before);

    // Rewinding an empty checkpoint empties the tree again.
    let mut t = BridgeTree::<String, 4>::new(100);
    t.checkpoint();
    t.append(&"a".to_string());
    assert!(t.rewind());
    assert_eq!(t.root(), "________________");
}

#[test]
fn checkpoint_bound_drops_oldest() {
    let mut t = BridgeTree::<String, 4>::new(2);
    t.checkpoint();
    t.append(&"a".to_string());
    t.checkpoint();
    t.append(&"b".to_string());
    t.checkpoint();
    // The oldest (empty) checkpoint fell off; two rewinds succeed, a third
    // has nothing to pop.
    assert!(t.rewind());
    assert!(t.rewind());
    assert!(!t.rewind());
    assert!(!t.drop_oldest_checkpoint());
}

#[test]
fn recording_replay() {
    let mut t = BridgeTree::<String, 4>::new(100);
    t.append(&"a".to_string());
    t.append(&"b".to_string());
    let mut rec = t.recording();
    assert!(rec.append(&"c".to_string()));
    assert!(rec.append(&"d".to_string()));
    assert!(t.play(&rec));
    assert_eq!(t.root(), "abcd____________");

    // A recording whose bridge follows another position refuses to replay
    // after a predecessor it does not fit.
    let mut staged = BridgeTree::<String, 4>::new(100);
    staged.append(&"a".to_string());
    staged.witness();
    let mut rec_anchored = staged.recording();
    assert!(rec_anchored.append(&"b".to_string()));
    let mut other = BridgeTree::<String, 4>::new(100);
    other.append(&"x".to_string());
    other.append(&"y".to_string());
    other.witness();
    assert!(!other.play(&rec_anchored));

    // A fresh recording saturates at the depth cap like the tree.
    let mut rec2 = BridgeTree::<String, 1>::new(100).recording();
    assert!(rec2.append(&"a".to_string()));
    assert!(rec2.append(&"b".to_string()));
    assert!(!rec2.append(&"c".to_string()));

    // Recordings fuse into one another in order.
    let t3 = BridgeTree::<String, 4>::new(100);
    let mut base = t3.recording();
    assert!(base.append(&"a".to_string()));
    let mut cont = base.duplicate();
    assert!(cont.append(&"b".to_string()));
    assert!(base.play(&cont));
}

#[test]
fn path_for_anchor_without_following_bridge() {
    // An anchor that no bridge follows draws on its own frontier alone: the
    // path is still well formed, every altitude filled by an empty root.
    let tree = BridgeTree::<String, 4> {
        bridges: vec![MerkleBridge::new("a".to_string())],
        saved: vec![("a".to_string(), 0)],
        checkpoints: vec![],
        max_checkpoints: 100,
    };
    assert_eq!(
        tree.authentication_path(&"a".to_string()),
        Some((
            0,
            vec![
                "_".to_string(),
                "__".to_string(),
                "____".to_string(),
                "________".to_string()
            ]
        ))
    );

    // With ommers present they appear at their own altitudes, the rest
    // padded by empty roots.
    let mut bridge = MerkleBridge::<String>::new("a".to_string());
    bridge.append("b".to_string());
    bridge.append("c".to_string());
    let leaf = bridge.leaf_value();
    let tree = BridgeTree::<String, 4> {
        bridges: vec![bridge],
        saved: vec![(leaf.clone(), 0)],
        checkpoints: vec![],
        max_checkpoints: 100,
    };
    assert_eq!(
        tree.authentication_path(&leaf),
        Some((
            2,
            vec![
                "_".to_string(),
                "ab".to_string(),
                "____".to_string(),
                "________".to_string()
            ]
        ))
    );
}

#[test]
fn path_folds_back_to_root() {
    // Folding the leaf up the returned path reproduces the tree root.
    let mut t = BridgeTree::<String, 4>::new(100);
    for c in 'a'..='e' {
        t.append(&c.to_string());
        if c == 'c' {
            t.witness();
        }
    }
    let (position, path) = t.authentication_path(&"c".to_string()).unwrap();
    let mut node = "c".to_string();
    for (k, sibling) in path.iter().enumerate() {
        if (position >> k) & 1 == 1 {
            node = format!("{}{}", sibling, node);
        } else {
            node = format!("{}{}", node, sibling);
        }
    }
    assert_eq!(node, t.root());
}
