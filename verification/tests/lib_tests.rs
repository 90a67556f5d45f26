use pioneerfs::Network;

#[test]
fn test_network_creation() {
    let network = Network::new();
    assert!(
        !network.storage_nodes().is_empty(),
        "Network should initialize with default storage nodes"
    );
    assert!(!network.clients().is_empty(), "Network should initialize with default clients");
}

#[test]
fn test_add_storage_node() {
    let mut network = Network::new();
    let initial_count = network.storage_nodes().len();
    let peer_id: u64 = 2;
    network.add_storage_node(peer_id, 10); // Add a default price of 10
    assert_eq!(network.storage_nodes().len(), initial_count + 1);
    assert!(network.get_storage_node(peer_id).is_some());
}

#[test]
fn test_add_client() {
    let mut network = Network::new();
    let initial_count = network.clients().len();
    let peer_id: u64 = 7;
    network.add_client(peer_id);
    assert_eq!(network.clients().len(), initial_count + 1);
    assert!(network.get_client(peer_id).is_some());
}

#[test]
fn test_file_upload_and_download() {
    let mut network = Network::new();
    let client_id: u64 = 100;
    network.add_client(client_id);

    // Add multiple storage nodes to ensure enough are available
    for i in 0..5u64 {
        let storage_node_id = 2 + i;
        network.add_storage_node(storage_node_id, 10); // Add a default price of 10
    }

    let filename = "test.txt".to_string();
    let data = b"Hello, world!".to_vec();

    // Check initial balance
    let initial_balance = network.get_balance(client_id);
    assert_eq!(initial_balance, 1_000_000, "Initial balance should be 1,000,000");

    // Upload file
    network
        .upload_file(client_id, filename.clone(), data.clone(), 3, 0)
        .unwrap_or_else(|e| panic!("Failed to upload file: {:?}", e));

    // Download file
    let downloaded_data = network.download_file(client_id, &filename).unwrap();
    assert_eq!(data, downloaded_data);

    // Check that the client's balance is deducted
    let client_balance = network.get_balance(client_id);
    assert!(client_balance < 1_000_000, "Balance should be less than initial balance");
    let expected_deduction = 3 * 10; // 3 replications * 10 tokens per GiB (rounded up)
    assert_eq!(
        initial_balance - client_balance,
        expected_deduction,
        "Balance should be deducted by the correct amount"
    );

    // Remove file
    assert!(network.remove_file(client_id, &filename).is_ok());

    // Try to download removed file
    assert!(network.download_file(client_id, &filename).is_err());
}

#[test]
fn lib_test_file_replication() {
    let mut network = Network::new();
    let client_id: u64 = 100;
    network.add_client(client_id);

    // Add multiple storage nodes to ensure enough are available for replication
    for i in 0..5u64 {
        let storage_node_id = 2 + i;
        network.add_storage_node(storage_node_id, 10); // Add a default price of 10
    }

    let filename = "replicated.txt".to_string();
    let data = b"Replicate me!".to_vec();

    // Check initial balance
    let initial_balance = network.get_balance(client_id);
    assert_eq!(initial_balance, 1_000_000, "Initial balance should be 1,000,000");

    // Upload file
    network
        .upload_file(client_id, filename.clone(), data.clone(), 3, 0)
        .unwrap_or_else(|e| panic!("Failed to upload file: {:?}", e));

    // Replicate file
    assert!(network.replicate_file(client_id, &filename, 2).is_ok());

    // Download file
    let downloaded_data = network.download_file(client_id, &filename).unwrap();
    assert_eq!(data, downloaded_data);

    // Check that the client's balance is deducted
    let client_balance = network.get_balance(client_id);
    assert!(client_balance < 1_000_000, "Balance should be less than initial balance");
    assert!(client_balance >= 999_970, "Balance should not be deducted by more than 30 tokens");
}
