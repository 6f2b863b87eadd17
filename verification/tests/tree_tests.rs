use zkcore::codec::CreateMode;
use zkcore::errors::Error;
use zkcore::tree::ZnodeTree;

#[test]
fn create_and_read_back() {
    let mut t = ZnodeTree::new();
    let p = t
        .create(b"/a".to_vec(), b"hello".to_vec(), CreateMode::Persistent, 0, 111)
        .unwrap();
    assert_eq!(p, b"/a".to_vec());
    let (data, stat) = t.get_data(&b"/a".to_vec()).unwrap();
    assert_eq!(data, b"hello".to_vec());
    assert_eq!(stat.version, 0);
    assert_eq!(stat.czxid, 1);
    assert_eq!(stat.mzxid, 1);
    assert_eq!(stat.ctime, 111);
    assert_eq!(stat.ephemeral_owner, 0);
    assert_eq!(stat.data_length, 5);
    assert_eq!(stat.num_children, 0);
}

#[test]
fn create_existing_node_fails() {
    let mut t = ZnodeTree::new();
    t.create(b"/a".to_vec(), vec![], CreateMode::Persistent, 0, 0).unwrap();
    assert_eq!(
        t.create(b"/a".to_vec(), vec![], CreateMode::Persistent, 0, 0),
        Err(Error::NodeExists)
    );
}

#[test]
fn create_without_parent_fails() {
    let mut t = ZnodeTree::new();
    assert_eq!(
        t.create(b"/a/b".to_vec(), vec![], CreateMode::Persistent, 0, 0),
        Err(Error::NodeNotFound)
    );
}

#[test]
fn set_data_advances_version_and_data() {
    let mut t = ZnodeTree::new();
    t.create(b"/a".to_vec(), b"v0".to_vec(), CreateMode::Persistent, 0, 0).unwrap();
    let st = t.set_data(&b"/a".to_vec(), b"v1".to_vec(), -1, 5).unwrap();
    assert_eq!(st.version, 1);
    assert_eq!(st.mtime, 5);
    let st2 = t.set_data(&b"/a".to_vec(), b"v2".to_vec(), 1, 6).unwrap();
    assert_eq!(st2.version, 2);
    let (data, _) = t.get_data(&b"/a".to_vec()).unwrap();
    assert_eq!(data, b"v2".to_vec());
}

#[test]
fn set_data_version_mismatch_leaves_node_unchanged() {
    // A node at version 7, written with expected version 5, must fail
    // with VersionMismatch and keep its data and version.
    let mut t = ZnodeTree::new();
    t.create(b"/n".to_vec(), b"v0".to_vec(), CreateMode::Persistent, 0, 0).unwrap();
    for i in 1..=7 {
        let st = t
            .set_data(&b"/n".to_vec(), format!("v{}", i).into_bytes(), -1, i as i64)
            .unwrap();
        assert_eq!(st.version, i);
    }
    assert_eq!(
        t.set_data(&b"/n".to_vec(), b"clobber".to_vec(), 5, 99),
        Err(Error::VersionMismatch)
    );
    let (data, stat) = t.get_data(&b"/n".to_vec()).unwrap();
    assert_eq!(data, b"v7".to_vec());
    assert_eq!(stat.version, 7);
}

#[test]
fn set_data_missing_node_fails() {
    let mut t = ZnodeTree::new();
    assert_eq!(
        t.set_data(&b"/ghost".to_vec(), vec![], -1, 0),
        Err(Error::NodeNotFound)
    );
}

#[test]
fn ephemeral_nodes_vanish_with_their_session() {
    // create(path, data, ephemeral) followed by session close leaves the
    // node absent for any later query.
    let mut t = ZnodeTree::new();
    t.create(b"/e".to_vec(), b"mine".to_vec(), CreateMode::Ephemeral, 42, 0).unwrap();
    t.create(b"/keep".to_vec(), vec![], CreateMode::Persistent, 0, 0).unwrap();
    assert!(t.stat_of(&b"/e".to_vec()).is_some());
    t.close_session(42);
    assert!(t.stat_of(&b"/e".to_vec()).is_none());
    assert_eq!(t.get_data(&b"/e".to_vec()), Err(Error::NodeNotFound));
    // Other sessions' nodes survive.
    assert!(t.stat_of(&b"/keep".to_vec()).is_some());
}

#[test]
fn closing_a_session_removes_the_subtree_under_its_ephemerals() {
    let mut t = ZnodeTree::new();
    t.create(b"/e".to_vec(), vec![], CreateMode::Ephemeral, 7, 0).unwrap();
    t.create(b"/e/x".to_vec(), vec![], CreateMode::Persistent, 0, 0).unwrap();
    t.close_session(7);
    assert!(t.stat_of(&b"/e".to_vec()).is_none());
    assert!(t.stat_of(&b"/e/x".to_vec()).is_none());
}

#[test]
fn closing_an_unrelated_session_changes_nothing() {
    let mut t = ZnodeTree::new();
    t.create(b"/e".to_vec(), vec![], CreateMode::Ephemeral, 7, 0).unwrap();
    t.close_session(8);
    assert!(t.stat_of(&b"/e".to_vec()).is_some());
}

#[test]
fn delete_with_children_fails_not_empty_and_keeps_everything() {
    // delete(path) on a node with children fails with NotEmpty; the node
    // and its children remain present.
    let mut t = ZnodeTree::new();
    t.create(b"/a".to_vec(), vec![], CreateMode::Persistent, 0, 0).unwrap();
    t.create(b"/a/b".to_vec(), vec![], CreateMode::Persistent, 0, 0).unwrap();
    assert_eq!(t.delete(&b"/a".to_vec(), -1), Err(Error::NotEmpty));
    assert!(t.stat_of(&b"/a".to_vec()).is_some());
    assert!(t.stat_of(&b"/a/b".to_vec()).is_some());
}

#[test]
fn delete_leaf_removes_it_and_bumps_parent_cversion() {
    let mut t = ZnodeTree::new();
    t.create(b"/a".to_vec(), vec![], CreateMode::Persistent, 0, 0).unwrap();
    t.create(b"/a/b".to_vec(), vec![], CreateMode::Persistent, 0, 0).unwrap();
    assert_eq!(t.delete(&b"/a/b".to_vec(), -1), Ok(()));
    assert!(t.stat_of(&b"/a/b".to_vec()).is_none());
    let st = t.stat_of(&b"/a".to_vec()).unwrap();
    assert_eq!(st.cversion, 2); // one create below it, one delete
    assert_eq!(st.num_children, 0);
}

#[test]
fn delete_version_mismatch_fails() {
    let mut t = ZnodeTree::new();
    t.create(b"/a".to_vec(), vec![], CreateMode::Persistent, 0, 0).unwrap();
    t.set_data(&b"/a".to_vec(), b"x".to_vec(), -1, 0).unwrap();
    assert_eq!(t.delete(&b"/a".to_vec(), 0), Err(Error::VersionMismatch));
    assert_eq!(t.delete(&b"/a".to_vec(), 1), Ok(()));
}

#[test]
fn delete_missing_node_fails() {
    let mut t = ZnodeTree::new();
    assert_eq!(t.delete(&b"/ghost".to_vec(), -1), Err(Error::NodeNotFound));
}

#[test]
fn sequential_create_appends_the_parent_counter() {
    let mut t = ZnodeTree::new();
    let p1 = t
        .create(b"/q".to_vec(), vec![], CreateMode::PersistentSequential, 0, 0)
        .unwrap();
    assert_eq!(p1, b"/q0000000000".to_vec());
    let p2 = t
        .create(b"/q".to_vec(), vec![], CreateMode::PersistentSequential, 0, 0)
        .unwrap();
    assert_eq!(p2, b"/q0000000001".to_vec());
    assert!(t.stat_of(&p1).is_some());
    assert!(t.stat_of(&p2).is_some());
}

#[test]
fn get_children_lists_exactly_the_direct_children() {
    let mut t = ZnodeTree::new();
    t.create(b"/a".to_vec(), vec![], CreateMode::Persistent, 0, 0).unwrap();
    t.create(b"/a/b".to_vec(), vec![], CreateMode::Persistent, 0, 0).unwrap();
    t.create(b"/a/c".to_vec(), vec![], CreateMode::Persistent, 0, 0).unwrap();
    t.create(b"/a/c/deep".to_vec(), vec![], CreateMode::Persistent, 0, 0).unwrap();
    t.create(b"/other".to_vec(), vec![], CreateMode::Persistent, 0, 0).unwrap();
    let mut kids = t.get_children(&b"/a".to_vec()).unwrap();
    kids.sort();
    assert_eq!(kids, vec![b"/a/b".to_vec(), b"/a/c".to_vec()]);
    let root_kids = t.get_children(&b"/".to_vec()).unwrap();
    assert_eq!(root_kids.len(), 2); // "/a" and "/other"
    assert_eq!(
        t.get_children(&b"/ghost".to_vec()),
        Err(Error::NodeNotFound)
    );
}

#[test]
fn stat_counts_children_and_zero_means_none() {
    let mut t = ZnodeTree::new();
    t.create(b"/a".to_vec(), vec![], CreateMode::Persistent, 0, 0).unwrap();
    assert_eq!(t.stat_of(&b"/a".to_vec()).unwrap().num_children, 0);
    t.create(b"/a/b".to_vec(), vec![], CreateMode::Persistent, 0, 0).unwrap();
    assert_eq!(t.stat_of(&b"/a".to_vec()).unwrap().num_children, 1);
}
