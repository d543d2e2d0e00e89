use genesis_ceremony::codec::{from_hex, to_hex, u64_to_dec};
use genesis_ceremony::retry::{poll_step, timeout_error, PollDecision};
use genesis_ceremony::genesis::sort_names_exec;
use genesis_ceremony::schema::{
    check_name, find_dup, load_balances, load_vesting, parse_address_literal, serialize_balances,
    serialize_vesting, LayoutDescriptor, ParticipantBundle,
};
use genesis_ceremony::store::CoordinationStore;
use genesis_ceremony::twin::{LoadDestination, TwinAction, TwinValidatorTest};
use genesis_ceremony::waypoint::Waypoint;
use genesis_ceremony::GenesisError;

/// A serialized layout loads back equal to the original descriptor.
#[test]
fn layout_round_trip() {
    let layout = LayoutDescriptor {
        root_key: Some(vec![0xab; 32]),
        chain_id: 7,
        users: vec![b"user-0".to_vec(), b"user-1".to_vec()],
        is_test: false,
        balances_ref: Some(b"balances".to_vec()),
        vesting_ref: None,
    };
    let bytes = layout.serialize();
    let loaded = LayoutDescriptor::load(&bytes).unwrap();
    assert_eq!(loaded, layout);
}

/// A template descriptor starts empty, and the mutation helpers produce
/// updated copies that still round trip.
#[test]
fn template_and_merges_round_trip() {
    let t = LayoutDescriptor::build_template();
    assert_eq!(t.root_key, None);
    assert_eq!(t.users.len(), 0);
    assert!(t.is_test);

    let t = t
        .merge_root_key(vec![1; 32])
        .merge_participants(vec![b"alice".to_vec(), b"bob".to_vec()])
        .set_chain_id(9)
        .set_test_flag(false);
    let loaded = LayoutDescriptor::load(&t.serialize()).unwrap();
    assert_eq!(loaded.chain_id, 9);
    assert!(!loaded.is_test);
    assert_eq!(loaded.users, vec![b"alice".to_vec(), b"bob".to_vec()]);
}

/// A malformed layout file is a schema error, not a panic.
#[test]
fn layout_load_rejects_garbage() {
    assert!(matches!(
        LayoutDescriptor::load(&b"chain_id: x\n".to_vec()),
        Err(GenesisError::SchemaError)
    ));
    assert!(matches!(
        LayoutDescriptor::load(&Vec::new()),
        Err(GenesisError::SchemaError)
    ));
}

/// Validation flags the repeated name.
#[test]
fn validate_reports_duplicate() {
    let mut layout = LayoutDescriptor::build_template();
    layout.users = vec![b"n1".to_vec(), b"n2".to_vec(), b"n1".to_vec()];
    match layout.validate() {
        Err(GenesisError::DuplicateParticipant(name)) => assert_eq!(name, b"n1".to_vec()),
        other => panic!("expected DuplicateParticipant, got {:?}", other),
    }
    layout.users.pop();
    assert!(layout.validate().is_ok());
    assert_eq!(find_dup(&vec![b"a".to_vec(), b"a".to_vec()]), Some(b"a".to_vec()));
}

/// A serialized participant bundle loads back equal to the original.
#[test]
fn bundle_round_trip() {
    let bundle = ParticipantBundle {
        owner: vec![5; 32],
        operator: Some(vec![6; 32]),
        voter: None,
        host: b"localhost".to_vec(),
        port: 6180,
        stake: 100_000_000_000_000,
        commission: 17,
    };
    let loaded = ParticipantBundle::load(&bundle.serialize()).unwrap();
    assert_eq!(loaded, bundle);
}

/// A bundle with a commission over 100 percent does not load.
#[test]
fn bundle_rejects_bad_commission() {
    let mut bundle = ParticipantBundle {
        owner: vec![5; 32],
        operator: None,
        voter: None,
        host: b"h".to_vec(),
        port: 1,
        stake: 0,
        commission: 100,
    };
    assert!(ParticipantBundle::load(&bundle.serialize()).is_ok());
    bundle.commission = 101;
    assert!(matches!(
        ParticipantBundle::load(&bundle.serialize()),
        Err(GenesisError::SchemaError)
    ));
}

/// Balances and vesting files round trip, including the empty vesting set.
#[test]
fn auxiliary_files_round_trip() {
    let entries = vec![(vec![0u8; 20], 1u64), (vec![9u8; 20], 250u64)];
    let loaded = load_balances(&serialize_balances(&entries)).unwrap();
    assert_eq!(loaded, entries);

    let records: Vec<Vec<u8>> = Vec::new();
    let loaded = load_vesting(&serialize_vesting(&records)).unwrap();
    assert_eq!(loaded.len(), 0);

    let records = vec![b"beneficiary 1".to_vec(), b"beneficiary 2".to_vec()];
    let loaded = load_vesting(&serialize_vesting(&records)).unwrap();
    assert_eq!(loaded, records);
}

/// Hex and decimal rendering produce the exact expected text.
#[test]
fn codec_exact_values() {
    assert_eq!(to_hex(&vec![0x00, 0xff, 0x1a]), b"00ff1a".to_vec());
    assert_eq!(from_hex(&b"00ff1a".to_vec()), Some(vec![0x00, 0xff, 0x1a]));
    assert_eq!(from_hex(&b"0g".to_vec()), None);
    assert_eq!(from_hex(&b"abc".to_vec()), None);
    assert_eq!(u64_to_dec(0), b"0".to_vec());
    assert_eq!(u64_to_dec(1234567890), b"1234567890".to_vec());
}

/// The store is last-writer-wins per path, and `list` returns exactly the
/// live paths under a prefix.
#[test]
fn store_semantics() {
    let mut store = CoordinationStore::new();
    assert_eq!(store.read(&b"a".to_vec()), None);
    store.write(&b"a".to_vec(), &b"one".to_vec());
    store.write(&b"b/c".to_vec(), &b"two".to_vec());
    store.write(&b"a".to_vec(), &b"three".to_vec());
    assert_eq!(store.read(&b"a".to_vec()), Some(b"three".to_vec()));
    assert_eq!(
        store.read_required(&b"missing".to_vec()),
        Err(GenesisError::NotFound)
    );

    let all = store.list(&Vec::new());
    assert_eq!(all.len(), 2);
    let under_b = store.list(&b"b/".to_vec());
    assert_eq!(under_b, vec![b"b/c".to_vec()]);

    assert!(store.init(false).is_err());
    assert_eq!(store.init(false), Err(GenesisError::AlreadyExists));
    assert!(store.init(true).is_ok());
    assert_eq!(store.read(&b"a".to_vec()), None);
}

/// The waypoint is stable on equal artifacts and separates artifacts that
/// differ in one byte; an empty artifact is invalid.
#[test]
fn waypoint_stability_and_sensitivity() {
    let artifact = b"genesis ledger state".to_vec();
    let w1 = Waypoint::derive(&artifact).unwrap();
    let w2 = Waypoint::derive(&artifact).unwrap();
    assert_eq!(w1, w2);
    assert_eq!(w1.version, 0);

    let mut tweaked = artifact.clone();
    tweaked[0] ^= 1;
    let w3 = Waypoint::derive(&tweaked).unwrap();
    assert_ne!(w1.digest, w3.digest);
    assert_ne!(w1.to_text(), w3.to_text());

    let text = w1.to_text();
    assert_eq!(text[0], b'0');
    assert_eq!(text[1], b':');
    assert_eq!(text.len(), 2 + 16);

    assert_eq!(Waypoint::derive(&Vec::new()), Err(GenesisError::InvalidArtifact));
}

/// The bounded poll proceeds, clips the final wait, and gives up at the
/// deadline instead of blocking forever.
#[test]
fn bounded_poll_decisions() {
    assert_eq!(poll_step(0, 300_000, 1_000, true), PollDecision::Done);
    assert_eq!(poll_step(0, 300_000, 1_000, false), PollDecision::Wait(1_000));
    assert_eq!(poll_step(299_500, 300_000, 1_000, false), PollDecision::Wait(500));
    assert_eq!(poll_step(300_000, 300_000, 1_000, false), PollDecision::GiveUp);
    assert_eq!(timeout_error(), GenesisError::Timeout);
}

/// The twin exercise pairs the first validators with the tail of the list
/// and runs the swap steps in order.
#[test]
fn twin_plan_shape() {
    let t = TwinValidatorTest;
    assert_eq!(t.name(), "twin validator");
    assert_eq!(t.setup(), LoadDestination::AllFullnodes);

    let plan = t.run_plan(4, 2);
    assert_eq!(plan.len(), 12);
    assert_eq!(plan[0], TwinAction::ClearStorage(2));
    assert_eq!(plan[1], TwinAction::CopyIdentity(0, 2));
    assert_eq!(plan[2], TwinAction::Stop(0));
    assert_eq!(plan[3], TwinAction::Start(2));
    assert_eq!(plan[4], TwinAction::WaitHealthy(2));
    assert_eq!(plan[5], TwinAction::Start(0));
    assert_eq!(plan[6], TwinAction::ClearStorage(3));
    assert_eq!(plan[7], TwinAction::CopyIdentity(1, 3));
    assert_eq!(plan[11], TwinAction::Start(1));

    assert_eq!(t.run_plan(2, 0).len(), 0);
}

/// Participant names are path components: non-empty, with a restricted
/// character set.
#[test]
fn name_and_address_validation() {
    assert!(check_name(&b"user-0".to_vec()));
    assert!(check_name(&b"Node_7.main".to_vec()));
    assert!(!check_name(&Vec::new()));
    assert!(!check_name(&b"a/b".to_vec()));
    assert!(!check_name(&b"two words".to_vec()));

    let a = parse_address_literal(&b"0x123".to_vec()).unwrap();
    assert_eq!(a.len(), 20);
    assert_eq!(&a[18..], &[0x01, 0x23]);
    assert!(parse_address_literal(&b"123".to_vec()).is_none());
    assert!(parse_address_literal(&b"0x".to_vec()).is_none());
    assert!(parse_address_literal(&b"0xzz".to_vec()).is_none());
}

/// Name ordering is byte-wise lexicographic.
#[test]
fn names_sort_lexicographically() {
    let sorted = sort_names_exec(&vec![
        b"user-10".to_vec(),
        b"user-2".to_vec(),
        b"alpha".to_vec(),
    ]);
    assert_eq!(
        sorted,
        vec![b"alpha".to_vec(), b"user-10".to_vec(), b"user-2".to_vec()]
    );
}
