use pioneerfs::Network;

#[test]
fn test_network_operations() {
    let mut network = Network::new();

    // Add clients and storage nodes
    let client1_id: u64 = 70;
    let client2_id: u64 = 71;
    let storage_node1_id: u64 = 80;
    let storage_node2_id: u64 = 81;

    network.add_client(client1_id);
    network.add_client(client2_id);
    network.add_storage_node(storage_node1_id, 10);
    network.add_storage_node(storage_node2_id, 10);

    // Upload a file onto the first storage node
    let filename = "test.txt".to_string();
    let data = b"Hello, Pioneer!".to_vec();
    assert!(network
        .upload_file_to(client1_id, filename.clone(), data.clone(), vec![storage_node1_id], 0)
        .is_ok());

    // Download the file
    let downloaded_data = network.download_file(client1_id, &filename).unwrap();
    assert_eq!(data, downloaded_data);

    // Replicate the file onto one further node
    assert!(network.replicate_file(client1_id, &filename, 1).is_ok());

    // The replica is readable: two nodes now hold the blob
    let holders: Vec<u64> = network
        .storage_nodes()
        .iter()
        .filter(|n| n.get_file(&filename).is_some())
        .map(|n| n.peer_id)
        .collect();
    assert_eq!(holders.len(), 2);

    // Remove the file from the first storage node (the only indexed replica)
    assert!(network.remove_file(client1_id, &filename).is_ok());

    // Verify the file is still available on the second storage node
    let survivor = network
        .storage_nodes()
        .iter()
        .find(|n| n.get_file(&filename).is_some())
        .expect("one replica should survive");
    assert_eq!(survivor.get_file(&filename).unwrap(), &data);
}

#[test]
fn test_balance_operations() {
    let mut network = Network::new();

    let client_id: u64 = 60;
    let storage_node_id: u64 = 61;

    network.add_client(client_id);
    network.add_storage_node(storage_node_id, 10);

    let filename = "balance_test.txt".to_string();
    let data = b"Test balance operations".to_vec();
    let initial_balance = 1_000_000u64;
    let upload_cost = 10u64; // 1 GiB rounded up, at 10 per GiB

    // Upload a file
    assert!(network
        .upload_file_to(client_id, filename.clone(), data.clone(), vec![storage_node_id], 0)
        .is_ok());

    // Check balances after upload
    assert_eq!(network.get_balance(client_id), initial_balance - upload_cost);
    assert_eq!(network.get_balance(storage_node_id), upload_cost);

    // Try to upload a file the client cannot afford
    let pricey_node_id: u64 = 62;
    network.add_storage_node(pricey_node_id, 2_000_000);
    let large_data = vec![0; 200000]; // 200KB file
    assert!(network
        .upload_file_to(client_id, "large_file.txt".to_string(), large_data, vec![pricey_node_id], 0)
        .is_err());

    // Check balances haven't changed after failed upload
    assert_eq!(network.get_balance(client_id), initial_balance - upload_cost);
    assert_eq!(network.get_balance(storage_node_id), upload_cost);
}
