use genesis_ceremony::genesis::{
    add_framework, aggregate, create_account_balances_file, create_employee_vesting_accounts_file,
    create_users, generate_key_material, genesis_blob_name, publish, run_genesis,
    set_validator_config, waypoint_file_name,
};
use genesis_ceremony::schema::{parse_address_literal, LayoutDescriptor, ParticipantBundle};
use genesis_ceremony::store::CoordinationStore;
use genesis_ceremony::GenesisError;

fn bundle_for(seed: u8, stake: u64) -> ParticipantBundle {
    ParticipantBundle {
        owner: generate_key_material(seed),
        operator: None,
        voter: None,
        host: b"localhost".to_vec(),
        port: 6180,
        stake,
        commission: 0,
    }
}

/// End to end: two published users, a framework bundle, and a full run
/// producing a non-empty artifact and waypoint file pair.
#[test]
fn test_genesis_e2e_flow() {
    let mut store = CoordinationStore::new();
    create_users(&mut store, 2);
    add_framework(&mut store, &b"framework bytecode modules".to_vec());

    let (blob, waypoint) = run_genesis(&store).unwrap();
    assert!(!blob.is_empty());
    assert!(!waypoint.is_empty());
    assert_eq!(genesis_blob_name(), b"genesis.blob".to_vec());
    assert_eq!(waypoint_file_name(), b"waypoint.txt".to_vec());
}

/// End to end with auxiliary account files: balances for 0x123 and 0x234
/// and an empty vesting file, both referenced from the layout.
#[test]
fn test_mainnet_genesis_e2e_flow() {
    let mut store = CoordinationStore::new();
    create_users(&mut store, 2);

    let addr1 = parse_address_literal(&b"0x123".to_vec()).unwrap();
    let addr2 = parse_address_literal(&b"0x234".to_vec()).unwrap();
    assert_eq!(addr1.len(), 20);
    assert_ne!(addr1, addr2);
    create_account_balances_file(&mut store, &vec![addr1, addr2], &vec![1, 2]);
    create_employee_vesting_accounts_file(&mut store);

    // point the layout at the auxiliary files
    let layout_bytes = store
        .read(&genesis_ceremony::genesis::layout_path_vec())
        .unwrap();
    let mut layout = LayoutDescriptor::load(&layout_bytes).unwrap();
    layout.balances_ref = Some(b"balances".to_vec());
    layout.vesting_ref = Some(b"vesting".to_vec());
    genesis_ceremony::genesis::setup_store(&mut store, &layout);

    add_framework(&mut store, &b"framework bytecode modules".to_vec());

    let (blob, waypoint) = run_genesis(&store).unwrap();
    assert!(!blob.is_empty());
    assert!(!waypoint.is_empty());

    let input = aggregate(&store).unwrap();
    assert_eq!(input.balances.len(), 2);
    assert_eq!(input.balances[0].1, 1);
    assert_eq!(input.balances[1].1, 2);
    assert_eq!(input.vesting.len(), 0);
}

/// A layout listing a never-published name fails with `MissingParticipant`
/// for exactly that name, and yields no output pair.
#[test]
fn missing_participant_fails_aggregation() {
    let mut store = CoordinationStore::new();
    create_users(&mut store, 2);
    add_framework(&mut store, &b"framework bytecode modules".to_vec());

    let layout_bytes = store
        .read(&genesis_ceremony::genesis::layout_path_vec())
        .unwrap();
    let mut layout = LayoutDescriptor::load(&layout_bytes).unwrap();
    layout.users.push(b"user-2".to_vec());
    genesis_ceremony::genesis::setup_store(&mut store, &layout);

    match run_genesis(&store) {
        Err(GenesisError::MissingParticipant(name)) => {
            assert_eq!(name, b"user-2".to_vec());
        }
        other => panic!("expected MissingParticipant, got {:?}", other),
    }
}

/// Bundles published under names the layout does not list are ignored:
/// aggregation succeeds and its result is unchanged.
#[test]
fn extra_unlisted_bundles_are_ignored() {
    let mut store = CoordinationStore::new();
    create_users(&mut store, 2);
    add_framework(&mut store, &b"framework bytecode modules".to_vec());
    let before = run_genesis(&store).unwrap();

    publish(&mut store, &b"visitor".to_vec(), &bundle_for(9, 5));
    let after = run_genesis(&store).unwrap();
    assert_eq!(before, after);
}

/// A layout repeating a name fails with `DuplicateParticipant` even though
/// every listed name has a published bundle.
#[test]
fn duplicate_participant_rejected() {
    let mut store = CoordinationStore::new();
    create_users(&mut store, 2);
    add_framework(&mut store, &b"framework bytecode modules".to_vec());

    let layout_bytes = store
        .read(&genesis_ceremony::genesis::layout_path_vec())
        .unwrap();
    let mut layout = LayoutDescriptor::load(&layout_bytes).unwrap();
    layout.users.push(b"user-1".to_vec());
    genesis_ceremony::genesis::setup_store(&mut store, &layout);
    publish(&mut store, &b"user-1".to_vec(), &bundle_for(1, 7));

    match aggregate(&store) {
        Err(GenesisError::DuplicateParticipant(name)) => {
            assert_eq!(name, b"user-1".to_vec());
        }
        other => panic!("expected DuplicateParticipant, got {:?}", other),
    }
}

/// Publishing the same name twice with different stakes leaves the second
/// value as the one aggregation reads: last writer wins, never a merge.
#[test]
fn republish_is_last_writer_wins() {
    let mut store = CoordinationStore::new();
    create_users(&mut store, 2);
    add_framework(&mut store, &b"framework bytecode modules".to_vec());

    publish(&mut store, &b"user-0".to_vec(), &bundle_for(0, 11));
    publish(&mut store, &b"user-0".to_vec(), &bundle_for(0, 22));

    let input = aggregate(&store).unwrap();
    let idx = input
        .users
        .iter()
        .position(|u| u == &b"user-0".to_vec())
        .unwrap();
    assert_eq!(input.bundles[idx].stake, 22);
}

/// Aggregation of one snapshot is deterministic: two independent runs give
/// byte-identical artifact and waypoint text.
#[test]
fn aggregation_is_deterministic() {
    let mut store = CoordinationStore::new();
    create_users(&mut store, 3);
    add_framework(&mut store, &b"framework bytecode modules".to_vec());

    let first = run_genesis(&store).unwrap();
    let second = run_genesis(&store).unwrap();
    assert_eq!(first, second);
}

/// The aggregator orders participants by name regardless of layout order.
#[test]
fn participants_are_sorted_by_name() {
    let mut store = CoordinationStore::new();
    let mut layout = LayoutDescriptor::build_template();
    layout.root_key = Some(generate_key_material(7));
    layout.users = vec![b"bravo".to_vec(), b"alpha".to_vec(), b"charlie".to_vec()];
    genesis_ceremony::genesis::setup_store(&mut store, &layout);
    for (seed, name) in [(0u8, b"bravo".to_vec()), (1, b"alpha".to_vec()), (2, b"charlie".to_vec())]
    {
        publish(&mut store, &name, &bundle_for(seed, 100));
    }
    add_framework(&mut store, &b"fw".to_vec());

    let input = aggregate(&store).unwrap();
    assert_eq!(
        input.users,
        vec![b"alpha".to_vec(), b"bravo".to_vec(), b"charlie".to_vec()]
    );
}

/// Error cases of aggregation: no layout, unparsable layout, unset root
/// key, duplicate balance addresses.
#[test]
fn aggregation_error_variants() {
    let store = CoordinationStore::new();
    assert_eq!(run_genesis(&store), Err(GenesisError::NotFound));

    let mut store = CoordinationStore::new();
    store.write(
        &genesis_ceremony::genesis::layout_path_vec(),
        &b"not a layout".to_vec(),
    );
    assert_eq!(run_genesis(&store), Err(GenesisError::SchemaError));

    let mut store = CoordinationStore::new();
    let layout = LayoutDescriptor::build_template();
    genesis_ceremony::genesis::setup_store(&mut store, &layout);
    assert_eq!(run_genesis(&store), Err(GenesisError::MissingRootKey));

    let mut store = CoordinationStore::new();
    create_users(&mut store, 1);
    let addr = parse_address_literal(&b"0x123".to_vec()).unwrap();
    create_account_balances_file(&mut store, &vec![addr.clone(), addr], &vec![1, 2]);
    let layout_bytes = store
        .read(&genesis_ceremony::genesis::layout_path_vec())
        .unwrap();
    let mut layout = LayoutDescriptor::load(&layout_bytes).unwrap();
    layout.balances_ref = Some(b"balances".to_vec());
    genesis_ceremony::genesis::setup_store(&mut store, &layout);
    add_framework(&mut store, &b"fw".to_vec());
    assert_eq!(run_genesis(&store), Err(GenesisError::DuplicateAddress));
}

/// A validator configuration publish writes exactly one bundle that loads
/// back with the given values.
#[test]
fn set_validator_config_round_trips() {
    let mut store = CoordinationStore::new();
    let name = b"operator-a".to_vec();
    let key = generate_key_material(3);
    let bundle = set_validator_config(
        &mut store,
        &name,
        key.clone(),
        b"validator.example.org".to_vec(),
        6180,
        100_000_000_000_000,
        0,
    );
    assert_eq!(bundle.owner, key);

    let path = genesis_ceremony::genesis::participant_path_vec(&name);
    let raw = store.read(&path).unwrap();
    let loaded = ParticipantBundle::load(&raw).unwrap();
    assert_eq!(loaded, bundle);
    assert_eq!(loaded.stake, 100_000_000_000_000);
    assert_eq!(loaded.host, b"validator.example.org".to_vec());
}
