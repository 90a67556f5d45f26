use pioneerfs::network::DEAL_DURATION_SECS;
use pioneerfs::Network;
use pioneerfs::StorageError;

#[test]
fn test_two_priced_nodes_exact_charge() {
    // Two nodes priced 10 and 12 per GiB; client balance 1,000,000; a
    // 57-byte file with replication factor 2 costs ceil(57 / 2^30) * (10 +
    // 12) = 22 tokens.
    let mut network = Network::new(); // node 1 is priced 10
    network.add_storage_node(2, 12);
    let client_id: u64 = 0; // the starting client, balance 1,000,000
    assert_eq!(network.get_balance(client_id), 1_000_000);

    let filename = "scenario_a.bin".to_string();
    let data = vec![7u8; 57];
    let placed = network.upload_file(client_id, filename.clone(), data.clone(), 2, 0).unwrap();
    assert_eq!(placed.len(), 2);

    assert_eq!(network.get_balance(client_id), 999_978);
    for node_id in [1u64, 2u64] {
        let node = network.get_storage_node(node_id).unwrap();
        assert_eq!(node.get_file(&filename).unwrap(), &data);
    }
}

#[test]
fn test_marketplace_offer_acceptance() {
    // Accepting half of a 1,000,000,000-byte offer leaves exactly one offer
    // with the remaining space at the back of the queue, reserves the bytes
    // on the node, and charges ceil(500,000,000 / 2^30) * 10 = 10 tokens.
    let mut network = Network::new();
    let node_id: u64 = 1;
    let client_id: u64 = 0;

    network.add_storage_offer(node_id, 10, 1_000_000_000);
    let node_space_before = network.get_storage_node(node_id).unwrap().available_space();
    let balance_before = network.get_balance(client_id);

    assert!(network.accept_storage_offer(client_id, 0, 500_000_000).is_ok());

    let offers = network.get_storage_offers();
    assert_eq!(offers.len(), 1);
    assert_eq!(offers[0].available_space, 500_000_000);
    assert_eq!(offers[0].storage_node_id, node_id);
    assert_eq!(offers[0].price_per_gb, 10);

    let node_space_after = network.get_storage_node(node_id).unwrap().available_space();
    assert_eq!(node_space_before - node_space_after, 500_000_000);
    assert_eq!(balance_before - network.get_balance(client_id), 10);
}

#[test]
fn test_expiry_sweep_cascade() {
    // Upload, let the lease lapse, sweep: the deal goes away, the blob
    // leaves every replica node, and the location lookup reports not-found.
    let mut network = Network::new();
    let client_id: u64 = 0;
    let filename = "expiring.txt".to_string();
    let data = b"short lived".to_vec();

    network.upload_file(client_id, filename.clone(), data, 1, 0).unwrap();
    assert_eq!(network.deals.len(), 1);

    network.check_deals(DEAL_DURATION_SECS + 1);

    assert_eq!(network.deals.len(), 0);
    for node in network.storage_nodes() {
        assert!(node.get_file(&filename).is_none());
    }
    assert_eq!(network.get_file_locations(client_id, &filename), Err(StorageError::FileNotFound));
}

#[test]
fn test_sweep_boundary_and_second_run() {
    // At exactly the lease duration nothing is expired; one second later it
    // is. A second sweep with nothing newly expired changes nothing.
    let mut network = Network::new();
    let client_id: u64 = 0;
    let filename = "boundary.txt".to_string();
    network.upload_file(client_id, filename.clone(), b"x".to_vec(), 1, 0).unwrap();

    network.check_deals(DEAL_DURATION_SECS);
    assert_eq!(network.deals.len(), 1, "a lease lasts through its full duration");

    network.check_deals(DEAL_DURATION_SECS + 1);
    assert_eq!(network.deals.len(), 0);
    let balance = network.get_balance(client_id);
    let node_files = network.get_storage_node(1).unwrap().stored_files().len();

    // Second sweep at the same clock reading: no change, no error.
    network.check_deals(DEAL_DURATION_SECS + 1);
    assert_eq!(network.deals.len(), 0);
    assert_eq!(network.get_balance(client_id), balance);
    assert_eq!(network.get_storage_node(1).unwrap().stored_files().len(), node_files);
    assert_eq!(network.get_file_locations(client_id, &filename), Err(StorageError::FileNotFound));
}

#[test]
fn test_invalid_replication_factor_changes_nothing() {
    // A requested factor at or below the current replica count fails with
    // InvalidReplicationFactor and leaves balances, node contents and the
    // index untouched.
    let mut network = Network::new();
    network.add_storage_node(2, 10);
    let client_id: u64 = 0;
    let filename = "pinned.txt".to_string();
    network.upload_file(client_id, filename.clone(), b"data".to_vec(), 2, 0).unwrap();

    let balance_before = network.get_balance(client_id);
    let locations_before = network.get_file_locations(client_id, &filename).unwrap();
    let stored_before: Vec<usize> =
        network.storage_nodes().iter().map(|n| n.stored_files().len()).collect();

    let r = network.request_higher_replication(client_id, &filename, 2);
    assert_eq!(r, Err(StorageError::InvalidReplicationFactor));

    assert_eq!(network.get_balance(client_id), balance_before);
    assert_eq!(network.get_file_locations(client_id, &filename).unwrap(), locations_before);
    let stored_after: Vec<usize> =
        network.storage_nodes().iter().map(|n| n.stored_files().len()).collect();
    assert_eq!(stored_after, stored_before);
}

#[test]
fn test_reupload_keeps_one_deal_per_replica() {
    // Re-uploading an existing filename replaces the pair's deals instead
    // of piling fresh ones on top: each stored (client, node, filename)
    // triple keeps exactly one deal, restarted at the new clock reading.
    let mut network = Network::new();
    network.add_storage_node(2, 10);
    let client_id: u64 = 0;
    let filename = "refreshed.txt".to_string();

    network.upload_file(client_id, filename.clone(), b"v1".to_vec(), 2, 0).unwrap();
    assert_eq!(network.deals.len(), 2);

    network.upload_file(client_id, filename.clone(), b"v2".to_vec(), 2, 5).unwrap();
    assert_eq!(network.deals.len(), 2, "the pair's previous deals are replaced, not kept");
    for d in &network.deals {
        assert_eq!(d.start_time, 5);
        assert_eq!(d.filename, filename);
    }

    // A different filename opens its own deals beside the first pair's.
    network.upload_file(client_id, "other.txt".to_string(), b"v1".to_vec(), 1, 9).unwrap();
    assert_eq!(network.deals.len(), 3);
}

#[test]
fn test_accept_offer_checks_balance_before_capacity() {
    // When the client cannot pay and the node is also out of free space,
    // the payment is reported first: the price check comes before the
    // reservation.
    let mut network = Network::new();
    let client_id: u64 = 0;

    // Exhaust node 1's free space through a free offer.
    network.add_storage_offer(1, 0, 1_000_000_000);
    assert!(network.accept_storage_offer(client_id, 0, 1_000_000_000).is_ok());
    assert_eq!(network.get_storage_node(1).unwrap().available_space(), 0);

    // Now both the price and the node's space are short.
    network.add_storage_offer(1, 2_000_000, 1_000_000_000);
    assert_eq!(
        network.accept_storage_offer(client_id, 0, 500_000_000),
        Err(StorageError::InsufficientBalance)
    );
}

#[test]
fn test_renew_deal_resets_start() {
    let mut network = Network::new();
    let client_id: u64 = 0;
    let filename = "renewed.txt".to_string();
    network.upload_file(client_id, filename.clone(), b"keep me".to_vec(), 1, 0).unwrap();
    let node_id = network.get_file_locations(client_id, &filename).unwrap()[0];

    // Renew half-way through; the deal then survives the original deadline.
    let half = DEAL_DURATION_SECS / 2;
    assert!(network.renew_deal(client_id, node_id, &filename, half).is_ok());
    network.check_deals(DEAL_DURATION_SECS + 1);
    assert_eq!(network.deals.len(), 1);

    // It still expires once the renewed lease lapses.
    network.check_deals(half + DEAL_DURATION_SECS + 1);
    assert_eq!(network.deals.len(), 0);

    // Renewing a deal that never existed fails.
    assert_eq!(
        network.renew_deal(client_id, node_id, &"no_such_file.txt".to_string(), 0),
        Err(StorageError::DealNotFound)
    );
}

#[test]
fn test_upload_error_variants() {
    let mut network = Network::new();
    let client_id: u64 = 0;

    // More replicas than registered nodes.
    assert_eq!(
        network.upload_file(client_id, "a.txt".to_string(), b"x".to_vec(), 5, 0),
        Err(StorageError::InsufficientNodes)
    );

    // Unknown client.
    assert_eq!(
        network.upload_file(999, "a.txt".to_string(), b"x".to_vec(), 1, 0),
        Err(StorageError::ClientNotFound)
    );

    // Unknown placement node.
    assert_eq!(
        network.upload_file_to(client_id, "a.txt".to_string(), b"x".to_vec(), vec![999], 0),
        Err(StorageError::NodeNotFound)
    );

    // Unaffordable price.
    network.add_storage_node(2, 20_000_000);
    assert_eq!(
        network.upload_file_to(client_id, "a.txt".to_string(), b"x".to_vec(), vec![2], 0),
        Err(StorageError::InsufficientBalance)
    );

    // A node with no free space left.
    network.add_storage_node(3, 0);
    network.add_storage_offer(3, 0, 1_000_000_000);
    assert!(network.accept_storage_offer(client_id, 0, 1_000_000_000).is_ok());
    assert_eq!(
        network.upload_file_to(client_id, "a.txt".to_string(), b"x".to_vec(), vec![3], 0),
        Err(StorageError::CapacityExceeded)
    );
}

#[test]
fn test_marketplace_error_variants() {
    let mut network = Network::new();
    let client_id: u64 = 0;

    // No offer at that index.
    assert_eq!(network.accept_storage_offer(client_id, 3, 10), Err(StorageError::OfferNotFound));

    // The offer advertises less space than asked for.
    network.add_storage_offer(1, 10, 1000);
    assert_eq!(
        network.accept_storage_offer(client_id, 0, 2000),
        Err(StorageError::InsufficientSpace)
    );

    // The offer's node is not registered.
    network.add_storage_offer(999, 10, 1000);
    assert_eq!(network.accept_storage_offer(client_id, 1, 500), Err(StorageError::NodeNotFound));

    // The paying client cannot cover the price.
    network.add_storage_offer(1, 2_000_000, 1_000_000_000);
    assert_eq!(
        network.accept_storage_offer(client_id, 2, 1_000_000_000),
        Err(StorageError::InsufficientBalance)
    );

    // Offers are consumed from any slot but remainders queue at the back,
    // so indices shift across accepting calls.
    let mut network2 = Network::new();
    network2.add_storage_offer(1, 10, 600);
    network2.add_storage_offer(1, 11, 700);
    assert!(network2.accept_storage_offer(client_id, 0, 100).is_ok());
    let offers = network2.get_storage_offers();
    assert_eq!(offers.len(), 2);
    assert_eq!(offers[0].price_per_gb, 11, "the untouched offer moves to the front");
    assert_eq!(offers[1].price_per_gb, 10, "the remainder re-enters at the back");
    assert_eq!(offers[1].available_space, 500);
}

#[test]
fn test_replication_error_variants() {
    let mut network = Network::new();
    let client_id: u64 = 0;
    let filename = "r.txt".to_string();

    // Nothing uploaded yet.
    assert_eq!(
        network.request_higher_replication(client_id, &filename, 2),
        Err(StorageError::FileNotFound)
    );
    assert_eq!(network.replicate_file(client_id, &filename, 1), Err(StorageError::FileNotFound));
    assert_eq!(
        network.request_higher_replication(999, &filename, 2),
        Err(StorageError::ClientNotFound)
    );

    // Only one node is registered: no candidates outside the replica set.
    network.upload_file(client_id, filename.clone(), b"abc".to_vec(), 1, 0).unwrap();
    assert_eq!(
        network.request_higher_replication(client_id, &filename, 2),
        Err(StorageError::InsufficientAdditionalNodes)
    );
    assert_eq!(
        network.replicate_file(client_id, &filename, 1),
        Err(StorageError::InsufficientAdditionalNodes)
    );
}

#[test]
fn test_upload_selects_distinct_registered_nodes() {
    // The random draw must hand back as many distinct registered nodes as
    // the replication factor asks for.
    let mut network = Network::new();
    for i in 0..6u64 {
        network.add_storage_node(10 + i, 10);
    }
    let placed = network
        .upload_file(0, "spread.txt".to_string(), b"spread me".to_vec(), 4, 0)
        .unwrap();
    assert_eq!(placed.len(), 4);
    let registered = network.list_storage_nodes();
    for (i, a) in placed.iter().enumerate() {
        assert!(registered.contains(a));
        for b in placed.iter().skip(i + 1) {
            assert_ne!(a, b);
        }
    }
}

#[test]
fn test_download_skips_vanished_nodes() {
    // A node can vanish from the registry while still listed; download
    // falls through to the next listed replica, and fails only when none
    // is reachable.
    let mut network = Network::new();
    network.add_storage_node(2, 10);
    let client_id: u64 = 0;
    let filename = "fragile.txt".to_string();
    let data = b"fragile".to_vec();
    network.upload_file(client_id, filename.clone(), data.clone(), 2, 0).unwrap();

    let locations = network.get_file_locations(client_id, &filename).unwrap();
    network.storage_nodes.retain(|n| n.peer_id != locations[0]);
    assert_eq!(network.download_file(client_id, &filename).unwrap(), data);

    network.storage_nodes.retain(|n| n.peer_id != locations[1]);
    assert_eq!(network.download_file(client_id, &filename), Err(StorageError::FileNotFound));
}

#[test]
fn test_network_status_snapshot() {
    let mut network = Network::new();
    network.add_storage_node(2, 12);
    let client_id: u64 = 0;
    network.upload_file(client_id, "snap.txt".to_string(), b"snapshot".to_vec(), 2, 5).unwrap();
    network.add_storage_offer(2, 12, 1000);

    let status = network.get_network_status();
    assert_eq!(status.storage_nodes.len(), 2);
    assert_eq!(status.clients.len(), 1);
    assert_eq!(status.deals.len(), 2);
    assert_eq!(status.marketplace.len(), 1);
    for (_, node_status) in &status.storage_nodes {
        assert_eq!(node_status.stored_files, vec!["snap.txt".to_string()]);
    }
    assert_eq!(status.clients[0].0, client_id);
    assert_eq!(status.clients[0].1.files.len(), 1);
    assert_eq!(status.deals[0].filename, "snap.txt");
    assert_eq!(status.deals[0].start_time, 5);
}
