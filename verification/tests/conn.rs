use wrpc_verified::conn::IndexTrie;

#[test]
fn conn_trie_from_and_take() {
    let mut t: IndexTrie<u32, &str> = IndexTrie::from(&[Some(1), Some(0)], 7, Some("rx"));
    assert_eq!(t.get_tx(&[1, 0]), Some(7));
    assert_eq!(t.get_tx(&[1]), None);
    assert_eq!(t.get_tx(&[0, 0]), None);
    assert_eq!(t.take_rx(&[1, 0]), Some("rx"));
    assert_eq!(t.take_rx(&[1, 0]), None);
    assert_eq!(t.get_tx(&[1, 0]), Some(7));
}

#[test]
fn conn_trie_insert() {
    let mut t: IndexTrie<u32, u32> = IndexTrie::Empty;
    assert!(t.insert(&[], 1, Some(10)));
    assert!(t.insert(&[Some(2)], 2, Some(20)));
    assert!(t.insert(&[Some(0), Some(5)], 3, None));
    assert!(!t.insert(&[Some(2)], 4, Some(40)));
    assert!(!t.insert(&[None], 5, None));
    assert_eq!(t.get_tx(&[]), Some(1));
    assert_eq!(t.get_tx(&[2]), Some(2));
    assert_eq!(t.get_tx(&[0, 5]), Some(3));
    assert_eq!(t.take_rx(&[2]), Some(20));
    assert_eq!(t.take_rx(&[0, 5]), None);
    assert_eq!(t.take_rx(&[]), Some(10));
    assert_eq!(t.get_tx(&[]), Some(1));
}

#[test]
fn conn_trie_wildcards() {
    let mut t: IndexTrie<u8, u8> = IndexTrie::from(&[None], 1, Some(2));
    assert_eq!(t.get_tx(&[0]), None);
    assert_eq!(t.take_rx(&[0]), None);
    assert!(t.insert(&[None, Some(1)], 3, Some(4)));
    assert!(!t.insert(&[Some(0)], 5, None));
}

#[test]
fn conn_trie_from_iter() {
    let mut t: IndexTrie<u8, u8> = IndexTrie::from_iter(vec![
        (vec![Some(0)], 1, Some(10)),
        (vec![Some(1), None], 2, None),
        (vec![], 3, Some(30)),
    ]);
    assert_eq!(t.get_tx(&[0]), Some(1));
    assert_eq!(t.get_tx(&[]), Some(3));
    assert_eq!(t.take_rx(&[0]), Some(10));
    assert_eq!(t.take_rx(&[]), Some(30));
    let clash: IndexTrie<u8, u8> = IndexTrie::from_iter(vec![(vec![Some(0)], 1, None), (vec![None], 2, None)]);
    assert!(matches!(clash, IndexTrie::Empty));
    let dup: IndexTrie<u8, u8> = IndexTrie::from_iter(vec![(vec![Some(2)], 1, None), (vec![Some(2)], 2, None)]);
    assert!(matches!(dup, IndexTrie::Empty));
    let none: IndexTrie<u8, u8> = IndexTrie::from_iter(vec![]);
    assert!(matches!(none, IndexTrie::Empty));
}
