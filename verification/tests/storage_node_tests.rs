use pioneerfs::storage_node::MAX_STORAGE;
use pioneerfs::Client;
use pioneerfs::StorageError;
use pioneerfs::StorageNode;

#[test]
fn test_store_get_remove() {
    let mut node = StorageNode::new(1, 10);
    assert_eq!(node.available_space(), MAX_STORAGE);
    assert_eq!(node.price_per_gb(), 10);
    assert_eq!(node.reputation(), 100);

    let name = "blob.bin".to_string();
    assert!(node.store_file(name.clone(), vec![1, 2, 3, 4]).is_ok());
    assert_eq!(node.available_space(), MAX_STORAGE - 4);
    assert_eq!(node.get_file(&name).unwrap(), &vec![1, 2, 3, 4]);

    assert!(node.remove_file(&name).is_ok());
    assert_eq!(node.available_space(), MAX_STORAGE);
    assert!(node.get_file(&name).is_none());
    assert_eq!(node.remove_file(&name), Err(StorageError::FileNotFound));
}

#[test]
fn test_store_replaces_and_adjusts_by_delta() {
    // Overwriting a stored name replaces the blob and adjusts the space
    // accounting by the size difference, in both directions.
    let mut node = StorageNode::new(1, 10);
    let name = "blob.bin".to_string();
    assert!(node.store_file(name.clone(), vec![0; 100]).is_ok());
    assert_eq!(node.available_space(), MAX_STORAGE - 100);

    assert!(node.store_file(name.clone(), vec![0; 40]).is_ok());
    assert_eq!(node.available_space(), MAX_STORAGE - 40);
    assert_eq!(node.get_file(&name).unwrap().len(), 40);

    assert!(node.store_file(name.clone(), vec![0; 70]).is_ok());
    assert_eq!(node.available_space(), MAX_STORAGE - 70);
    assert_eq!(node.stored_files().len(), 1);
}

#[test]
fn test_overwrite_admission_by_free_space_only() {
    // Admission goes by the free space alone, also on overwrites: the
    // bytes being replaced do not count toward it, even though the
    // accounting then adjusts by the size delta.
    let mut node = StorageNode::new(1, 10);
    assert!(node.reserve_space(MAX_STORAGE - 100).is_ok());
    assert!(node.store_file("blob".to_string(), vec![0; 80]).is_ok());
    assert_eq!(node.available_space(), 20);

    // 30 bytes would fit the free space plus the replaced blob, but not
    // the free space alone: refused, node unchanged.
    assert_eq!(node.store_file("blob".to_string(), vec![0; 30]), Err(StorageError::CapacityExceeded));
    assert_eq!(node.available_space(), 20);
    assert_eq!(node.get_file(&"blob".to_string()).unwrap().len(), 80);

    // 15 bytes fit the free space; the replacement then frees the delta.
    assert!(node.store_file("blob".to_string(), vec![0; 15]).is_ok());
    assert_eq!(node.available_space(), 85);
    assert_eq!(node.get_file(&"blob".to_string()).unwrap().len(), 15);
}

#[test]
fn test_capacity_accounting_invariant() {
    // Free space, reserved space and stored bytes always add up to the
    // fixed capacity.
    let mut node = StorageNode::new(1, 10);
    assert!(node.store_file("a".to_string(), vec![0; 1000]).is_ok());
    assert!(node.store_file("b".to_string(), vec![0; 500]).is_ok());
    assert!(node.reserve_space(2000).is_ok());

    let stored_total: usize = node.stored_files().iter().map(|(_, d)| d.len()).sum();
    assert_eq!(node.available_space() + node.reserved_space + stored_total, MAX_STORAGE);

    assert!(node.remove_file(&"a".to_string()).is_ok());
    let stored_total: usize = node.stored_files().iter().map(|(_, d)| d.len()).sum();
    assert_eq!(node.available_space() + node.reserved_space + stored_total, MAX_STORAGE);
}

#[test]
fn test_store_and_reserve_refuse_overcommit() {
    let mut node = StorageNode::new(1, 10);
    assert!(node.reserve_space(MAX_STORAGE - 10).is_ok());
    assert_eq!(node.store_file("big".to_string(), vec![0; 11]), Err(StorageError::CapacityExceeded));
    assert_eq!(node.reserve_space(11), Err(StorageError::CapacityExceeded));
    assert!(node.store_file("small".to_string(), vec![0; 10]).is_ok());
    assert_eq!(node.available_space(), 0);
}

#[test]
fn test_reputation_saturates_at_zero() {
    let mut node = StorageNode::new(1, 10);
    node.increase_reputation(50);
    assert_eq!(node.reputation(), 150);
    node.decrease_reputation(200);
    assert_eq!(node.reputation(), 0);
    node.decrease_reputation(1);
    assert_eq!(node.reputation(), 0);
}

#[test]
fn test_price_updates() {
    let mut node = StorageNode::new(7, 10);
    assert_eq!(node.get_price_per_gb(), 10);
    node.set_price_per_gb(25);
    assert_eq!(node.get_price_per_gb(), 25);
    assert_eq!(node.price_per_gb(), 25);
    assert_eq!(node.peer_id(), 7);
}

#[test]
fn test_client_index_operations() {
    let mut client = Client::new(9);
    assert_eq!(client.peer_id(), 9);
    assert_eq!(client.balance(), 100_000);

    let name = "notes.txt".to_string();
    client.add_file(name.clone(), vec![1, 2, 3]);
    assert_eq!(client.get_file_locations(&name).unwrap(), &vec![1, 2, 3]);
    assert_eq!(client.download_file(&name).unwrap(), &vec![1, 2, 3]);
    assert_eq!(client.list_files().len(), 1);

    // Removing nodes one by one; the entry vanishes with its last node.
    assert!(client.remove_file(&name, 2));
    assert_eq!(client.get_file_locations(&name).unwrap(), &vec![1, 3]);
    assert!(!client.remove_file(&name, 2));
    assert!(client.remove_file(&name, 1));
    assert!(client.remove_file(&name, 3));
    assert!(client.get_file_locations(&name).is_none());

    // The client-local upload records placement without moving bytes.
    assert!(client.upload_file(name.clone(), b"ignored".to_vec(), 5).is_ok());
    assert!(client.upload_file(name.clone(), b"ignored".to_vec(), 5).is_ok());
    assert_eq!(client.get_file_locations(&name).unwrap(), &vec![5]);

    assert!(client.clear_file(&name));
    assert!(!client.clear_file(&name));
    assert!(client.get_file_locations(&name).is_none());
}

#[test]
fn test_client_balance_operations() {
    let mut client = Client::new(3);
    client.add_balance(500);
    assert_eq!(client.balance(), 100_500);
    assert!(client.subtract_balance(100_500));
    assert_eq!(client.balance(), 0);
    assert!(!client.subtract_balance(1));
    assert_eq!(client.balance(), 0);
}
