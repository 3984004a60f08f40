use vca_eval::address::Address;
use vca_eval::merkle::SortedMerkleTree;
use vca_eval::registry::MockRegistry;

fn addr(last: u8) -> Address {
    let mut b = [0u8; 20];
    b[19] = last;
    Address::new(b)
}

#[test]
fn test_registry_creation() {
    let registry = MockRegistry::new();
    assert!(registry.is_empty());
    assert_eq!(registry.len(), 0);
}

#[test]
fn test_register_and_retrieve() {
    let mut registry = MockRegistry::new();

    let tree = SortedMerkleTree::new(vec![addr(1), addr(3)]).unwrap();
    let root = tree.root();

    registry.register_watchlist("test://list1".to_string(), tree, 1704067200);

    assert!(registry.contains("test://list1"));
    assert_eq!(registry.len(), 1);

    let retrieved_tree = registry.get_tree("test://list1").unwrap();
    assert_eq!(retrieved_tree.root(), root);

    let retrieved_root = registry.get_root("test://list1").unwrap();
    assert_eq!(retrieved_root, root);
}

#[test]
fn test_historical_root() {
    let mut registry = MockRegistry::new();

    let tree = SortedMerkleTree::new(vec![addr(1)]).unwrap();
    let root = tree.root();

    let timestamp = 1704067200u64;
    registry.register_watchlist("test://list1".to_string(), tree, timestamp);

    let historical_root = registry.get_historical_root("test://list1", timestamp).unwrap();
    assert_eq!(historical_root, root);
}

#[test]
fn test_missing_watchlist() {
    let registry = MockRegistry::new();

    assert!(!registry.contains("missing://list"));
    assert!(registry.get_tree("missing://list").is_none());
    assert!(registry.get_root("missing://list").is_none());
    assert!(registry.get_historical_root("missing://list", 0).is_none());
}

#[test]
fn test_multiple_watchlists() {
    let mut registry = MockRegistry::new();

    let tree1 = SortedMerkleTree::new(vec![addr(1)]).unwrap();
    let tree2 = SortedMerkleTree::new(vec![addr(2)]).unwrap();

    registry.register_watchlist("test://list1".to_string(), tree1.clone(), 1704067200);
    registry.register_watchlist("test://list2".to_string(), tree2.clone(), 1704067300);

    assert_eq!(registry.len(), 2);
    assert!(registry.contains("test://list1"));
    assert!(registry.contains("test://list2"));

    assert_eq!(registry.get_root("test://list1").unwrap(), tree1.root());
    assert_eq!(registry.get_root("test://list2").unwrap(), tree2.root());
}

#[test]
fn no_historical_root_before_registration() {
    let mut registry = MockRegistry::new();
    let tree = SortedMerkleTree::new(vec![addr(1), addr(3)]).unwrap();
    let root = tree.root();
    registry.register_watchlist("test://list1".to_string(), tree, 1000);

    assert!(registry.get_historical_root("test://list1", 999).is_none());
    assert_eq!(registry.get_historical_root("test://list1", 1000), Some(root));
    assert_eq!(registry.get_historical_root("test://list1", 5000), Some(root));
    assert!(registry.get_historical_root("test://list2", 5000).is_none());
}

#[test]
fn registering_again_replaces() {
    let mut registry = MockRegistry::new();
    let first = SortedMerkleTree::new(vec![addr(1)]).unwrap();
    let second = SortedMerkleTree::new(vec![addr(1), addr(2)]).unwrap();
    let second_root = second.root();
    registry.register_watchlist("test://list1".to_string(), first, 100);
    registry.register_watchlist("test://list1".to_string(), second, 200);

    assert_eq!(registry.len(), 1);
    assert_eq!(registry.get_root("test://list1"), Some(second_root));
    assert!(registry.get_historical_root("test://list1", 150).is_none());
    assert_eq!(registry.get_historical_root("test://list1", 200), Some(second_root));
    assert_eq!(registry.get_tree("test://list1").unwrap().len(), 2);
}

#[test]
fn default_registry_is_empty() {
    let registry = MockRegistry::default();
    assert!(registry.is_empty());
    assert_eq!(registry.len(), 0);
}
