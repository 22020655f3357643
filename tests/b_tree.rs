use pagedb::b_tree::{Btree, DuplicateKey, KeyValuePair, KeysIterator, Node};

fn collect_keys(btree: &Btree) -> Vec<u64> {
    let mut it = btree.keys();
    let mut keys = Vec::new();
    while let Some(k) = it.next() {
        keys.push(k);
    }
    keys
}

#[test]
fn split_leaf_works() {
    let node = Node::Leaf {
        values: vec![
            KeyValuePair::new(1, "bar".as_bytes().to_vec()),
            KeyValuePair::new(2, "james".as_bytes().to_vec()),
            KeyValuePair::new(3, "grande".as_bytes().to_vec()),
        ],
        keys: vec![1, 2, 3],
    };

    let (left, mid, sibling) = node.split();
    assert_eq!(mid, 2);
    assert_eq!(
        left,
        Node::Leaf {
            values: vec![
                KeyValuePair {
                    key: 1,
                    value: "bar".as_bytes().to_vec(),
                },
                KeyValuePair {
                    key: 2,
                    value: "james".as_bytes().to_vec()
                }
            ],
            keys: vec![1, 2],
        }
    );
    assert_eq!(
        sibling,
        Node::Leaf {
            keys: vec![3],
            values: vec![KeyValuePair::new(3, "grande".as_bytes().to_vec())]
        }
    );
}

#[test]
fn split_internal_works() {
    let node = Node::Internal {
        children: vec![
            Node::Leaf {
                keys: vec![],
                values: vec![KeyValuePair::new(1, "bar".as_bytes().to_vec())],
            },
            Node::Leaf {
                keys: vec![],
                values: vec![KeyValuePair::new(2, "james".as_bytes().to_vec())],
            },
            Node::Leaf {
                keys: vec![],
                values: vec![KeyValuePair::new(3, "grande".as_bytes().to_vec())],
            },
        ],
        keys: vec![1, 2, 3],
    };

    let (left, median, sibling) = node.split();
    assert_eq!(median, 2);
    assert_eq!(
        left,
        Node::Internal {
            keys: vec![1],
            children: vec![
                Node::Leaf {
                    keys: vec![],
                    values: vec![KeyValuePair::new(1, "bar".as_bytes().to_vec(),)],
                },
                Node::Leaf {
                    keys: vec![],
                    values: vec![KeyValuePair::new(2, "james".as_bytes().to_vec(),)],
                }
            ]
        }
    );
    assert_eq!(
        sibling,
        Node::Internal {
            keys: vec![3],
            children: vec![Node::Leaf {
                keys: vec![],
                values: vec![KeyValuePair::new(3, "grande".as_bytes().to_vec(),)],
            },],
        }
    );
}

#[test]
fn test_insert() {
    let mut btree = Btree::new();

    btree.insert(1, "value1".as_bytes().to_vec());
    btree.insert(2, "value2".as_bytes().to_vec());
    btree.insert(3, "value3".as_bytes().to_vec());
    btree.insert(4, "value4".as_bytes().to_vec());
    btree.insert(5, "value5".as_bytes().to_vec());
    btree.insert(6, "value6".as_bytes().to_vec());
    btree.insert(7, "value7".as_bytes().to_vec());
    btree.insert(8, "value8".as_bytes().to_vec());
    btree.insert(9, "value9".as_bytes().to_vec());
    btree.insert(10, "value10".as_bytes().to_vec());
    btree.insert(11, "value11".as_bytes().to_vec());
    btree.insert(12, "value12".as_bytes().to_vec());

    assert_eq!(btree.search(1), Some(KeyValuePair { key: 1, value: "value1".as_bytes().to_vec() }));
    assert_eq!(btree.search(2), Some(KeyValuePair { key: 2, value: "value2".as_bytes().to_vec() }));
    assert_eq!(btree.search(3), Some(KeyValuePair { key: 3, value: "value3".as_bytes().to_vec() }));
    assert_eq!(btree.search(4), Some(KeyValuePair { key: 4, value: "value4".as_bytes().to_vec() }));
    assert_eq!(btree.search(5), Some(KeyValuePair { key: 5, value: "value5".as_bytes().to_vec() }));
    assert_eq!(btree.search(6), Some(KeyValuePair { key: 6, value: "value6".as_bytes().to_vec() }));
    assert_eq!(btree.search(7), Some(KeyValuePair { key: 7, value: "value7".as_bytes().to_vec() }));
    assert_eq!(btree.search(8), Some(KeyValuePair { key: 8, value: "value8".as_bytes().to_vec() }));
    assert_eq!(btree.search(9), Some(KeyValuePair { key: 9, value: "value9".as_bytes().to_vec() }));
    assert_eq!(
        btree.search(10),
        Some(KeyValuePair { key: 10, value: "value10".as_bytes().to_vec() })
    );
    assert_eq!(
        btree.search(11),
        Some(KeyValuePair { key: 11, value: "value11".as_bytes().to_vec() })
    );
    assert_eq!(
        btree.search(12),
        Some(KeyValuePair { key: 12, value: "value12".as_bytes().to_vec() })
    );

    let keys: Vec<u64> = collect_keys(&btree);
    assert_eq!(keys, vec![1, 2, 3, 4, 5, 6, 7, 8, 9, 10, 11, 12]);
}

#[test]
fn twelve_keys_end_to_end() {
    let mut btree = Btree::new();
    for k in 1..=12u64 {
        btree.insert(k, format!("value{k}").into_bytes());
    }
    assert_eq!(collect_keys(&btree), (1..=12).collect::<Vec<u64>>());
    assert_eq!(btree.search(7), Some(KeyValuePair::new(7, b"value7".to_vec())));
    assert_eq!(btree.search(99), None);
}

#[test]
fn empty_tree_has_no_keys() {
    let btree = Btree::new();
    assert_eq!(btree.search(0), None);
    assert_eq!(btree.search(u64::MAX), None);
    assert!(collect_keys(&btree).is_empty());
}

#[test]
fn descending_inserts_come_out_ascending() {
    let mut btree = Btree::new();
    for k in (1..=40u64).rev() {
        btree.insert(k, vec![k as u8]);
    }
    assert_eq!(collect_keys(&btree), (1..=40).collect::<Vec<u64>>());
    for k in 1..=40u64 {
        assert_eq!(btree.search(k), Some(KeyValuePair::new(k, vec![k as u8])));
    }
    assert_eq!(btree.search(0), None);
    assert_eq!(btree.search(41), None);
}

#[test]
fn scattered_inserts_are_all_found() {
    let mut btree = Btree::new();
    let mut inserted = Vec::new();
    for i in 0..500u64 {
        let k = (i * 7919) % 1009;
        btree.insert(k, k.to_le_bytes().to_vec());
        inserted.push(k);
    }
    inserted.sort();
    assert_eq!(collect_keys(&btree), inserted);
    for &k in &inserted {
        assert_eq!(btree.search(k), Some(KeyValuePair::new(k, k.to_le_bytes().to_vec())));
    }
    for k in 0..1009u64 {
        if inserted.binary_search(&k).is_err() {
            assert_eq!(btree.search(k), None);
        }
    }
}

#[test]
fn extreme_keys() {
    let mut btree = Btree::new();
    btree.insert(u64::MAX, b"max".to_vec());
    btree.insert(0, b"zero".to_vec());
    for k in 1..20u64 {
        btree.insert(u64::MAX - k, vec![]);
    }
    let keys = collect_keys(&btree);
    assert_eq!(keys[0], 0);
    assert_eq!(*keys.last().unwrap(), u64::MAX);
    assert_eq!(keys.len(), 21);
    assert_eq!(btree.search(u64::MAX), Some(KeyValuePair::new(u64::MAX, b"max".to_vec())));
    assert_eq!(btree.search(0), Some(KeyValuePair::new(0, b"zero".to_vec())));
}

#[test]
fn leaf_is_full_past_seven_keys() {
    let leaf = |n: u64| Node::Leaf {
        keys: (0..n).collect(),
        values: (0..n).map(|k| KeyValuePair::new(k, vec![])).collect(),
    };
    assert!(!leaf(7).is_full());
    assert!(leaf(8).is_full());
    assert!(leaf(8).split().0.is_leaf());
}

#[test]
fn internal_is_full_past_eight_children() {
    let internal = |n: u64| Node::Internal {
        keys: (1..n).collect(),
        children: (0..n).map(|_| Node::Leaf { keys: vec![], values: vec![] }).collect(),
    };
    assert!(!internal(8).is_full());
    assert!(internal(9).is_full());
}

#[test]
fn full_leaf_splits_with_left_bias() {
    let node = Node::Leaf {
        keys: (1..=8).collect(),
        values: (1..=8).map(|k| KeyValuePair::new(k, vec![k as u8])).collect(),
    };
    let (left, sep, right) = node.split();
    assert_eq!(sep, 5);
    match (left, right) {
        (Node::Leaf { keys: lk, values: lv }, Node::Leaf { keys: rk, values: rv }) => {
            assert_eq!(lk, vec![1, 2, 3, 4, 5]);
            assert_eq!(rk, vec![6, 7, 8]);
            assert_eq!(lv.len(), 5);
            assert_eq!(rv[0], KeyValuePair::new(6, vec![6]));
        }
        _ => panic!("leaf halves expected"),
    }
}

#[test]
fn full_internal_splits_at_median() {
    let node = Node::Internal {
        keys: (1..=8).collect(),
        children: (0..9u64)
            .map(|k| Node::Leaf { keys: vec![k], values: vec![KeyValuePair::new(k, vec![])] })
            .collect(),
    };
    let (left, sep, right) = node.split();
    assert_eq!(sep, 5);
    match (left, right) {
        (Node::Internal { keys: lk, children: lc }, Node::Internal { keys: rk, children: rc }) => {
            assert_eq!(lk, vec![1, 2, 3, 4]);
            assert_eq!(lc.len(), 5);
            assert_eq!(rk, vec![6, 7, 8]);
            assert_eq!(rc.len(), 4);
        }
        _ => panic!("internal halves expected"),
    }
}

#[test]
fn default_cursor_is_empty() {
    let mut it = KeysIterator::default();
    assert_eq!(it.next(), None);
    assert_eq!(it.next(), None);
}

#[test]
fn copied_pair_is_equal() {
    let p = KeyValuePair::new(9, b"nine".to_vec());
    assert_eq!(p.copied(), p);
}

#[test]
fn try_insert_rejects_a_held_key() {
    let mut btree = Btree::new();
    for k in 0..10u64 {
        assert_eq!(btree.try_insert(k, vec![1]), Ok(()));
    }
    assert_eq!(btree.try_insert(4, vec![2]), Err(DuplicateKey { key: 4 }));
    assert_eq!(btree.search(4), Some(KeyValuePair::new(4, vec![1])));
    assert_eq!(collect_keys(&btree), (0..10).collect::<Vec<u64>>());
    assert_eq!(btree.try_insert(10, vec![3]), Ok(()));
    assert_eq!(btree.search(10), Some(KeyValuePair::new(10, vec![3])));
}

fn leaf_of(range: std::ops::RangeInclusive<u64>) -> Node {
    Node::Leaf {
        keys: range.clone().collect(),
        values: range.map(|k| KeyValuePair::new(k, vec![k as u8])).collect(),
    }
}

#[test]
fn root_leaf_grows_into_internal_node() {
    let mut btree = Btree::new();
    assert_eq!(btree.root(), &Node::Leaf { keys: vec![], values: vec![] });
    for k in 1..=7u64 {
        btree.insert(k, vec![k as u8]);
    }
    assert_eq!(btree.root(), &leaf_of(1..=7));
    btree.insert(8, vec![8]);
    assert_eq!(
        btree.root(),
        &Node::Internal { keys: vec![5], children: vec![leaf_of(1..=5), leaf_of(6..=8)] }
    );
}

#[test]
fn child_split_is_spliced_into_root() {
    let mut btree = Btree::new();
    for k in 1..=13u64 {
        btree.insert(k, vec![k as u8]);
    }
    assert_eq!(
        btree.root(),
        &Node::Internal {
            keys: vec![5, 10],
            children: vec![leaf_of(1..=5), leaf_of(6..=10), leaf_of(11..=13)],
        }
    );
}

#[test]
fn full_internal_root_grows_one_level() {
    let mut btree = Btree::new();
    for k in 1..=100u64 {
        btree.insert(k, vec![]);
    }
    match btree.root() {
        Node::Internal { keys, children } => {
            assert!(!keys.is_empty() && keys.len() + 1 == children.len());
            assert!(children.len() <= 8);
            assert!(keys.windows(2).all(|w| w[0] < w[1]));
            assert!(children.iter().all(|c| !c.is_leaf()));
        }
        Node::Leaf { .. } => panic!("a tree of 100 keys has an internal root"),
    }
}
