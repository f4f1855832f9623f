use bridgetree::position::{Altitude, Position};
use bridgetree::frontier::{Frontier, NonEmptyFrontier};
use bridgetree::bridge::MerkleBridge;
use bridgetree::tree::BridgeTree;

#[test]
fn position_altitudes() {
    assert_eq!(Position(0).max_altitude(), Altitude(0));
    assert_eq!(Position(1).max_altitude(), Altitude(0));
    assert_eq!(Position(2).max_altitude(), Altitude(1));
    assert_eq!(Position(3).max_altitude(), Altitude(1));
    assert_eq!(Position(4).max_altitude(), Altitude(2));
    assert_eq!(Position(7).max_altitude(), Altitude(2));
    assert_eq!(Position(8).max_altitude(), Altitude(3));
}

#[test]
fn tree_depth() {
    let mut tree = BridgeTree::<String, 3>::new(100);
    for c in 'a'..'i' {
        assert!(tree.append(&c.to_string()))
    }
    assert!(!tree.append(&'i'.to_string()));
}

#[test]
fn root_hashes() {
    let mut bridge = MerkleBridge::<String>::new("a".to_string());
    assert_eq!(bridge.root(), "a_");

    bridge.append("b".to_string());
    assert_eq!(bridge.root(), "ab");

    bridge.append("c".to_string());
    assert_eq!(bridge.root(), "abc_");

    let mut tree = BridgeTree::<String, 4>::new(100);
    assert_eq!(tree.root(), "________________");

    tree.append(&"a".to_string());
    assert_eq!(tree.root().len(), 16);
    assert_eq!(tree.root(), "a_______________");

    tree.append(&"b".to_string());
    assert_eq!(tree.root(), "ab______________");

    tree.append(&"c".to_string());
    assert_eq!(tree.root(), "abc_____________");
}

#[test]
fn auth_paths() {
    let mut tree = BridgeTree::<String, 4>::new(100);
    tree.append(&"a".to_string());
    tree.witness();
    assert_eq!(
        tree.authentication_path(&"a".to_string()),
        Some((
            0,
            vec![
                "_".to_string(),
                "__".to_string(),
                "____".to_string(),
                "________".to_string()
            ]
        ))
    );

    tree.append(&"b".to_string());
    assert_eq!(
        tree.authentication_path(&"a".to_string()),
        Some((
            0,
            vec![
                "b".to_string(),
                "__".to_string(),
                "____".to_string(),
                "________".to_string()
            ]
        ))
    );

    tree.append(&"c".to_string());
    tree.witness();
    assert_eq!(
        tree.authentication_path(&"c".to_string()),
        Some((
            2,
            vec![
                "_".to_string(),
                "ab".to_string(),
                "____".to_string(),
                "________".to_string()
            ]
        ))
    );

    tree.append(&"d".to_string());
    assert_eq!(
        tree.authentication_path(&"c".to_string()),
        Some((
            2,
            vec![
                "d".to_string(),
                "ab".to_string(),
                "____".to_string(),
                "________".to_string()
            ]
        ))
    );

    tree.append(&"e".to_string());
    assert_eq!(
        tree.authentication_path(&"c".to_string()),
        Some((
            2,
            vec![
                "d".to_string(),
                "ab".to_string(),
                "e___".to_string(),
                "________".to_string()
            ]
        ))
    );

    let mut tree = BridgeTree::<String, 4>::new(100);
    tree.append(&"a".to_string());
    tree.witness();
    for c in 'b'..'h' {
        tree.append(&c.to_string());
    }
    tree.witness();
    tree.append(&"h".to_string());

    assert_eq!(
        tree.authentication_path(&"a".to_string()),
        Some((
            0,
            vec![
                "b".to_string(),
                "cd".to_string(),
                "efgh".to_string(),
                "________".to_string()
            ]
        ))
    );

    let mut tree = BridgeTree::<String, 4>::new(100);
    tree.append(&"a".to_string());
    tree.witness();
    tree.append(&"b".to_string());
    tree.append(&"c".to_string());
    tree.append(&"d".to_string());
    tree.witness();
    tree.append(&"e".to_string());
    tree.witness();
    tree.append(&"f".to_string());
    tree.witness();
    tree.append(&"g".to_string());

    assert_eq!(
        tree.authentication_path(&"f".to_string()),
        Some((
            5,
            vec![
                "e".to_string(),
                "g_".to_string(),
                "abcd".to_string(),
                "________".to_string()
            ]
        ))
    );

    let mut tree = BridgeTree::<String, 4>::new(100);
    for c in 'a'..'l' {
        tree.append(&c.to_string());
    }
    tree.witness();
    tree.append(&'l'.to_string());

    assert_eq!(
        tree.authentication_path(&"k".to_string()),
        Some((
            10,
            vec![
                "l".to_string(),
                "ij".to_string(),
                "____".to_string(),
                "abcdefgh".to_string()
            ]
        ))
    );

    let mut tree = BridgeTree::<String, 4>::new(100);
    tree.append(&'a'.to_string());
    tree.witness();
    tree.checkpoint();
    tree.rewind();
    for c in 'b'..'f' {
        tree.append(&c.to_string());
    }
    tree.witness();
    for c in 'f'..'i' {
        tree.append(&c.to_string());
    }

    assert_eq!(
        tree.authentication_path(&"a".to_string()),
        Some((
            0,
            vec![
                "b".to_string(),
                "cd".to_string(),
                "efgh".to_string(),
                "________".to_string()
            ]
        ))
    );

    let mut tree = BridgeTree::<String, 4>::new(100);
    tree.append(&'a'.to_string());
    tree.witness();
    tree.remove_witness(&'a'.to_string());
    tree.checkpoint();
    tree.witness();
    tree.rewind();
    tree.checkpoint();
    tree.append(&'a'.to_string());

    assert_eq!(
        tree.authentication_path(&"a".to_string()),
        Some((
            0,
            vec![
                "a".to_string(),
                "__".to_string(),
                "____".to_string(),
                "________".to_string()
            ]
        ))
    );

    let mut tree = BridgeTree::<String, 4>::new(100);
    tree.append(&'a'.to_string());
    tree.append(&'b'.to_string());
    tree.append(&'c'.to_string());
    tree.witness();
    tree.append(&'d'.to_string());
    tree.append(&'e'.to_string());
    tree.append(&'f'.to_string());
    tree.append(&'g'.to_string());
    tree.witness();
    tree.checkpoint();
    tree.append(&'h'.to_string());
    tree.rewind();

    assert_eq!(
        tree.authentication_path(&"c".to_string()),
        Some((
            2,
            vec![
                "d".to_string(),
                "ab".to_string(),
                "efg_".to_string(),
                "________".to_string()
            ]
        ))
    );

    let mut tree = BridgeTree::<String, 4>::new(100);
    for c in 'a'..'n' {
        tree.append(&c.to_string());
    }
    tree.witness();
    tree.append(&'n'.to_string());
    tree.witness();
    tree.append(&'o'.to_string());
    tree.append(&'p'.to_string());

    assert_eq!(
        tree.authentication_path(&"m".to_string()),
        Some((
            12,
            vec![
                "n".to_string(),
                "op".to_string(),
                "ijkl".to_string(),
                "abcdefgh".to_string()
            ]
        ))
    );

    let mut tree = BridgeTree::<String, 4>::new(100);
    for c in 'a'..='l' {
        tree.append(&c.to_string());
    }
    tree.witness();
    tree.append(&'m'.to_string());
    tree.append(&'n'.to_string());
    assert_eq!(
        tree.authentication_path(&'l'.to_string()),
        Some((
            11,
            vec![
                "k".to_string(),
                "ij".to_string(),
                "mn__".to_string(),
                "abcdefgh".to_string()
            ]
        ))
    );
}

#[test]
fn drop_oldest_checkpoint() {
    let mut t = BridgeTree::<String, 6>::new(100);
    t.checkpoint();
    t.append(&"a".to_string());
    t.witness();
    t.append(&"b".to_string());
    t.append(&"c".to_string());
    assert!(!t.rewind());
    assert!(t.drop_oldest_checkpoint());
}

#[test]
fn checkpoint_rewind() {
    let mut t = BridgeTree::<String, 6>::new(100);
    t.append(&"a".to_string());
    t.append(&"b".to_string());
    t.checkpoint();
    t.append(&"c".to_string());
    t.witness();
    assert!(!t.rewind());

    let mut t = BridgeTree::<String, 6>::new(100);
    t.append(&"a".to_string());
    t.append(&"b".to_string());
    t.checkpoint();
    t.witness();
    t.witness();
    assert!(t.rewind());
}
