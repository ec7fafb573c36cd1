use cipherpad::attachment::decrypt_pad_to_bytes;
use cipherpad::crypto::{decrypt_as_string, derive_key, encrypt};
use cipherpad::error::Error;
use cipherpad::pad::{BlobPadMetadata, EncryptedPad, NodeRow, Pad, PadNode, StoreRequest};
use cipherpad::session::{pad_id_from_random, salt_or_new, Cipherpad, PadMap, SessionState};
use cipherpad::tree::Node;

const SALT: [u8; 16] = [0x5a; 16];

fn shape(node: &Node) -> String {
    let children: Vec<String> = node.children.iter().map(shape).collect();
    format!("{}[{}]", node.id, children.join(","))
}

fn pad(parent_id: Option<u128>, name: &str, body: &str) -> Pad {
    Pad {
        parent_id,
        pad_metadata: format!("{{\"type\":\"text\",\"name\":\"{}\"}}", name),
        pad_data: body.to_string(),
    }
}

fn unlocked() -> Cipherpad<()> {
    let mut session = Cipherpad::new();
    session.open(());
    session.unlock("hunter2", &SALT, &[]).unwrap();
    session
}

/// A store in memory: what the host would keep in its database.
struct Rows {
    rows: Vec<(u128, Option<u128>, Vec<u8>, Vec<u8>)>,
}

impl Rows {
    fn new() -> Self {
        Rows { rows: Vec::new() }
    }

    fn apply(&mut self, request: StoreRequest) {
        match request {
            StoreRequest::InsertNode { id, parent_id, pad_metadata, pad_data } => {
                self.rows.push((id, parent_id, pad_metadata, pad_data));
            }
            StoreRequest::UpdateNode { id, parent_id, pad_metadata, pad_data } => {
                for row in self.rows.iter_mut() {
                    if row.0 == id {
                        if parent_id.is_some() {
                            row.1 = parent_id;
                        }
                        row.2 = pad_metadata.clone();
                        row.3 = pad_data.clone();
                    }
                }
            }
            StoreRequest::DeleteNode { id } => {
                let mut gone = vec![id];
                while let Some(next) = gone.pop() {
                    for row in &self.rows {
                        if row.1 == Some(next) {
                            gone.push(row.0);
                        }
                    }
                    self.rows.retain(|row| row.0 != next);
                }
            }
            StoreRequest::ClearPadData { id } => {
                for row in self.rows.iter_mut() {
                    if row.0 == id {
                        row.3 = Vec::new();
                    }
                }
            }
        }
    }

    fn list(&self) -> Vec<NodeRow> {
        self.rows
            .iter()
            .map(|row| NodeRow { id: row.0, parent_id: row.1, pad_metadata: row.2.clone() })
            .collect()
    }

    fn find(&self, id: u128) -> Option<Vec<u8>> {
        self.rows.iter().find(|row| row.0 == id).map(|row| row.3.clone())
    }

    fn data(&self, id: u128) -> Vec<u8> {
        self.find(id).unwrap()
    }
}

fn create(session: &Cipherpad<()>, store: &mut Rows, id: u128, pad: Pad) {
    store.apply(session.create_pad_with_id(id, pad).unwrap());
}

#[test]
fn new_session_is_fresh() {
    let session: Cipherpad<()> = Cipherpad::new();
    assert!(!session.is_connected());
    assert_eq!(session.current_state(), SessionState::Fresh);
    assert!(session.master_key.is_none());
    assert!(session.pad_map.pads.is_empty());
}

#[test]
fn open_locks_and_unlock_unlocks() {
    let mut session: Cipherpad<()> = Cipherpad::new();
    session.open(());
    assert!(session.is_connected());
    assert_eq!(session.current_state(), SessionState::Locked);
    let tree = session.unlock("hunter2", &SALT, &[]).unwrap();
    assert!(tree.nodes.is_empty());
    assert_eq!(session.current_state(), SessionState::Unlocked);
}

#[test]
fn unlocking_keeps_the_key_that_argon2_gives() {
    let session = unlocked();
    let mut expected = [0u8; 32];
    derive_key(b"hunter2", &SALT, &mut expected).unwrap();
    assert_eq!(session.master_key, Some(expected));
}

#[test]
fn commands_before_open_find_no_store() {
    let mut session: Cipherpad<()> = Cipherpad::new();
    assert!(matches!(session.unlock("hunter2", &SALT, &[]), Err(Error::StoreUnavailable)));
    assert!(matches!(session.get_node_tree(&[]), Err(Error::StoreUnavailable)));
    assert!(matches!(session.derive_master_key("hunter2", &SALT), Err(Error::StoreUnavailable)));
    assert!(matches!(session.get_pad_map(), Err(Error::StoreUnavailable)));
    assert!(matches!(session.content_key(), Err(Error::StoreUnavailable)));
    assert!(matches!(session.delete_pad(1), Err(Error::StoreUnavailable)));
    assert!(matches!(session.decrypt_pad(Some(&[])), Err(Error::StoreUnavailable)));
    assert!(matches!(session.decrypt_pad(None), Err(Error::StoreUnavailable)));
    assert!(matches!(session.create_pad(pad(None, "a", "b")), Err(Error::StoreUnavailable)));
    assert_eq!(session.current_state(), SessionState::Fresh);
}

#[test]
fn content_commands_on_a_locked_session_are_refused() {
    let mut session: Cipherpad<()> = Cipherpad::new();
    session.open(());
    assert!(matches!(session.get_node_tree(&[]), Err(Error::Locked)));
    assert!(matches!(session.get_pad_map(), Err(Error::Locked)));
    assert!(matches!(session.content_key(), Err(Error::Locked)));
    assert!(matches!(session.find_pad(1), Err(Error::Locked)));
    assert!(matches!(session.delete_pad(1), Err(Error::Locked)));
    assert!(matches!(session.decrypt_pad(Some(&[])), Err(Error::Locked)));
    assert!(matches!(session.decrypt_pad(None), Err(Error::Locked)));
    assert!(matches!(session.create_pad(pad(None, "a", "b")), Err(Error::Locked)));
    assert!(matches!(
        session.update_pad(&PadNode::new(1, pad(None, "a", "b"))),
        Err(Error::Locked)
    ));
    assert_eq!(session.current_state(), SessionState::Locked);
}

#[test]
fn unlocking_twice_is_refused() {
    let mut session = unlocked();
    let key = session.master_key;
    assert!(matches!(session.unlock("hunter2", &SALT, &[]), Err(Error::AlreadyUnlocked)));
    assert!(matches!(session.unlock("other", &SALT, &[]), Err(Error::AlreadyUnlocked)));
    assert_eq!(session.master_key, key);
    assert_eq!(session.current_state(), SessionState::Unlocked);
}

#[test]
fn unlocking_with_a_salt_that_argon2_refuses_fails() {
    let mut session: Cipherpad<()> = Cipherpad::new();
    session.open(());
    assert!(matches!(session.unlock("hunter2", &[1u8; 4], &[]), Err(Error::CryptoFailure)));
    assert!(matches!(session.unlock("hunter2", &[1u8; 7], &[]), Err(Error::CryptoFailure)));
    assert_eq!(session.current_state(), SessionState::Locked);
    assert!(matches!(session.derive_master_key("hunter2", &[1u8; 7]), Err(Error::CryptoFailure)));
    assert!(session.master_key.is_none());
}

#[test]
fn deriving_succeeds_on_every_salt_that_argon2_accepts() {
    let mut session: Cipherpad<()> = Cipherpad::new();
    session.open(());
    for salt in [vec![1u8; 8], vec![2u8; 16], vec![3u8; 100]] {
        assert!(session.derive_master_key("", &salt).is_ok());
        assert!(session.derive_master_key("hunter2", &salt).is_ok());
    }
}

#[test]
fn refused_unlock_keeps_the_cache() {
    let mut session = unlocked();
    let mut store = Rows::new();
    create(&session, &mut store, 1, pad(None, "A", ""));
    session.get_node_tree(&store.list()).unwrap();
    assert_eq!(session.pad_map.pads.len(), 1);
    assert!(matches!(session.unlock("other", &SALT, &[]), Err(Error::AlreadyUnlocked)));
    assert_eq!(session.pad_map.pads.len(), 1);
    assert!(session.pad_map.pads.contains_key(&1));

    let mut fresh: Cipherpad<()> = Cipherpad::new();
    assert!(matches!(fresh.unlock("hunter2", &SALT, &store.list()), Err(Error::StoreUnavailable)));
    assert!(fresh.pad_map.pads.is_empty());
}

#[test]
fn text_pad_round_trip() {
    let mut session: Cipherpad<()> = Cipherpad::new();
    session.open(());
    session.unlock("hunter2", &SALT, &[]).unwrap();
    let mut store = Rows::new();
    let request = session
        .create_pad(Pad {
            parent_id: None,
            pad_metadata: "{\"type\":\"text\",\"name\":\"a\"}".to_string(),
            pad_data: "hello".to_string(),
        })
        .unwrap();
    let id = match &request {
        StoreRequest::InsertNode { id, parent_id, .. } => {
            assert_eq!(*parent_id, None);
            *id
        }
        _ => panic!("not an insert"),
    };
    store.apply(request);
    assert_eq!(session.decrypt_pad(store.find(id).as_deref()).unwrap(), "hello".to_string());
}

#[test]
fn created_pad_shows_in_tree_and_cache_once_they_are_rebuilt() {
    let mut session = unlocked();
    let mut store = Rows::new();
    create(&session, &mut store, 7, pad(None, "a", "hello"));
    assert!(matches!(session.find_pad(7), Err(Error::NotFound)));
    let tree = session.get_node_tree(&store.list()).unwrap();
    assert_eq!(tree.nodes.len(), 1);
    assert_eq!(tree.nodes[0].id, 7);
    let cached = session.find_pad(7).unwrap();
    assert_eq!(cached.metadata, "{\"type\":\"text\",\"name\":\"a\"}".to_string());
    assert_eq!(cached.id, 7);
    assert_eq!(cached.parent_id, None);
    assert_eq!(session.decrypt_pad(store.find(7).as_deref()).unwrap(), "hello".to_string());
}

#[test]
fn pad_that_the_store_does_not_hold_is_not_found() {
    let session = unlocked();
    let store = Rows::new();
    assert_eq!(store.find(1), None);
    assert!(matches!(session.decrypt_pad(store.find(1).as_deref()), Err(Error::NotFound)));
    assert!(matches!(session.decrypt_pad(None), Err(Error::NotFound)));
}

#[test]
fn body_that_does_not_open_is_a_crypto_failure() {
    let session = unlocked();
    let mut store = Rows::new();
    create(&session, &mut store, 1, pad(None, "a", "hello"));
    let mut changed = store.data(1);
    changed[30] ^= 1;
    assert!(matches!(session.decrypt_pad(Some(&changed)), Err(Error::CryptoFailure)));
    assert!(matches!(session.decrypt_pad(Some(&[])), Err(Error::CryptoFailure)));
}

#[test]
fn pad_id_is_the_random_bytes_with_version_and_variant() {
    let random = [
        0x00, 0x01, 0x02, 0x03, 0x04, 0x05, 0x06, 0x07, 0x08, 0x09, 0x0a, 0x0b, 0x0c, 0x0d, 0x0e,
        0x0f,
    ];
    assert_eq!(pad_id_from_random(&random), 0x00010203_0405_4607_8809_0a0b0c0d0e0f);
    assert_eq!(pad_id_from_random(&[0xff; 16]), 0xffffffff_ffff_4fff_bfff_ffffffffffff);
    assert_eq!(pad_id_from_random(&[0x00; 16]), 0x00000000_0000_4000_8000_000000000000);
    let id = uuid::Uuid::from_u128(pad_id_from_random(&random));
    assert_eq!(id.get_version_num(), 4);
    assert_eq!(id.get_variant(), uuid::Variant::RFC4122);
}

#[test]
fn fresh_ids_are_random_version_four() {
    let session = unlocked();
    let mut ids = Vec::new();
    for _ in 0..4 {
        match session.create_pad(pad(None, "a", "b")).unwrap() {
            StoreRequest::InsertNode { id, .. } => {
                assert_eq!(uuid::Uuid::from_u128(id).get_version_num(), 4);
                assert_eq!(uuid::Uuid::from_u128(id).get_variant(), uuid::Variant::RFC4122);
                assert_eq!(id & 0xf000_c000_0000_0000_0000, 0x4000_8000_0000_0000_0000);
                ids.push(id);
            }
            _ => panic!("not an insert"),
        }
    }
    ids.sort();
    ids.dedup();
    assert_eq!(ids.len(), 4);
}

#[test]
fn tree_of_two_roots() {
    let mut session = unlocked();
    let mut store = Rows::new();
    create(&session, &mut store, 1, pad(None, "A", ""));
    create(&session, &mut store, 2, pad(None, "B", ""));
    create(&session, &mut store, 3, pad(Some(1), "C", ""));
    create(&session, &mut store, 4, pad(Some(3), "D", ""));
    let tree = session.get_node_tree(&store.list()).unwrap();
    let shapes: Vec<String> = tree.nodes.iter().map(shape).collect();
    assert_eq!(shapes, vec!["1[3[4[]]]".to_string(), "2[]".to_string()]);
    let map = session.get_pad_map().unwrap();
    assert_eq!(map.pads.len(), 4);
    assert_eq!(map.pads[&3].parent_id, Some(1));
    assert_eq!(map.pads[&4].metadata, "{\"type\":\"text\",\"name\":\"D\"}".to_string());
}

#[test]
fn deleting_a_root_takes_its_subtree_along() {
    let mut session = unlocked();
    let mut store = Rows::new();
    create(&session, &mut store, 1, pad(None, "A", ""));
    create(&session, &mut store, 2, pad(None, "B", ""));
    create(&session, &mut store, 3, pad(Some(1), "C", ""));
    create(&session, &mut store, 4, pad(Some(3), "D", ""));
    session.get_node_tree(&store.list()).unwrap();
    let request = session.delete_pad(1).unwrap();
    assert!(matches!(request, StoreRequest::DeleteNode { id: 1 }));
    store.apply(request);
    let tree = session.get_node_tree(&store.list()).unwrap();
    let shapes: Vec<String> = tree.nodes.iter().map(shape).collect();
    assert_eq!(shapes, vec!["2[]".to_string()]);
    let map = session.get_pad_map().unwrap();
    assert_eq!(map.pads.len(), 1);
    assert!(map.pads.contains_key(&2));
}

#[test]
fn pad_that_is_not_cached_cannot_be_deleted() {
    let mut session = unlocked();
    let mut store = Rows::new();
    create(&session, &mut store, 1, pad(None, "A", "body"));
    assert!(matches!(session.delete_pad(1), Err(Error::NotFound)));
    assert!(matches!(session.find_pad(1), Err(Error::NotFound)));
    assert_eq!(session.decrypt_pad(store.find(1).as_deref()).unwrap(), "body".to_string());
    session.get_node_tree(&store.list()).unwrap();
    assert!(matches!(session.delete_pad(2), Err(Error::NotFound)));
    assert!(matches!(session.delete_pad(1), Ok(StoreRequest::DeleteNode { id: 1 })));
}

#[test]
fn updated_pad_is_read_back() {
    let mut session = unlocked();
    let mut store = Rows::new();
    create(&session, &mut store, 1, pad(None, "A", "old"));
    create(&session, &mut store, 2, pad(None, "B", ""));
    let request = session.update_pad(&PadNode::new(1, pad(Some(2), "A2", "new"))).unwrap();
    match &request {
        StoreRequest::UpdateNode { id, parent_id, .. } => {
            assert_eq!(*id, 1);
            assert_eq!(*parent_id, Some(2));
        }
        _ => panic!("not an update"),
    }
    store.apply(request);
    let tree = session.get_node_tree(&store.list()).unwrap();
    let shapes: Vec<String> = tree.nodes.iter().map(shape).collect();
    assert_eq!(shapes, vec!["2[1[]]".to_string()]);
    assert_eq!(session.decrypt_pad(Some(&store.data(1))).unwrap(), "new".to_string());
    assert_eq!(
        session.find_pad(1).unwrap().metadata,
        "{\"type\":\"text\",\"name\":\"A2\"}".to_string()
    );
}

#[test]
fn update_without_a_parent_leaves_the_parent() {
    let session = unlocked();
    let request = session.update_pad(&PadNode::new(7, pad(None, "A", "x"))).unwrap();
    assert!(matches!(request, StoreRequest::UpdateNode { id: 7, parent_id: None, .. }));
}

#[test]
fn wrong_password_leaves_the_session_locked() {
    let first = unlocked();
    let mut store = Rows::new();
    create(&first, &mut store, 1, pad(None, "a", "hello"));

    let mut session: Cipherpad<()> = Cipherpad::new();
    session.open(());
    assert!(matches!(session.unlock("wrong", &SALT, &store.list()), Err(Error::CryptoFailure)));
    assert_eq!(session.current_state(), SessionState::Locked);
    assert!(session.master_key.is_none());
    assert!(session.pad_map.pads.is_empty());
    assert!(matches!(session.get_pad_map(), Err(Error::Locked)));

    let tree = session.unlock("hunter2", &SALT, &store.list()).unwrap();
    assert_eq!(tree.nodes.len(), 1);
    assert_eq!(session.current_state(), SessionState::Unlocked);
    assert_eq!(session.decrypt_pad(Some(&store.data(1))).unwrap(), "hello".to_string());
}

#[test]
fn right_password_with_another_salt_does_not_unlock() {
    let first = unlocked();
    let mut store = Rows::new();
    create(&first, &mut store, 1, pad(None, "a", "hello"));
    let mut session: Cipherpad<()> = Cipherpad::new();
    session.open(());
    assert!(matches!(
        session.unlock("hunter2", &[0x5b; 16], &store.list()),
        Err(Error::CryptoFailure)
    ));
    assert_eq!(session.current_state(), SessionState::Locked);
}

#[test]
fn reopened_store_shows_the_same_pads() {
    let first = unlocked();
    let mut store = Rows::new();
    create(&first, &mut store, 1, pad(None, "A", "one"));
    create(&first, &mut store, 2, pad(Some(1), "B", "two"));
    create(&first, &mut store, 3, pad(Some(1), "C", "three"));
    let mut first = first;
    let before: Vec<String> =
        first.get_node_tree(&store.list()).unwrap().nodes.iter().map(shape).collect();

    let mut second: Cipherpad<()> = Cipherpad::new();
    second.open(());
    let tree = second.unlock("hunter2", &SALT, &store.list()).unwrap();
    let after: Vec<String> = tree.nodes.iter().map(shape).collect();
    assert_eq!(before, after);
    assert_eq!(after, vec!["1[2[],3[]]".to_string()]);
    for (id, body) in [(1u128, "one"), (2, "two"), (3, "three")] {
        assert_eq!(second.decrypt_pad(Some(&store.data(id))).unwrap(), body.to_string());
        assert_eq!(
            first.find_pad(id).unwrap().metadata,
            second.find_pad(id).unwrap().metadata
        );
    }
}

#[test]
fn rows_that_repeat_an_id_are_a_store_error() {
    let mut session = unlocked();
    let key = session.master_key.unwrap();
    let meta = encrypt(b"{}", &key).unwrap();
    let rows = vec![
        NodeRow { id: 1, parent_id: None, pad_metadata: meta.clone() },
        NodeRow { id: 1, parent_id: None, pad_metadata: meta.clone() },
    ];
    assert!(matches!(session.get_node_tree(&rows), Err(Error::StoreError)));
    assert!(session.pad_map.pads.is_empty());
    assert_eq!(session.current_state(), SessionState::Unlocked);
}

#[test]
fn metadata_that_does_not_open_empties_the_cache() {
    let mut session = unlocked();
    let mut store = Rows::new();
    create(&session, &mut store, 1, pad(None, "A", ""));
    session.get_node_tree(&store.list()).unwrap();
    assert_eq!(session.pad_map.pads.len(), 1);
    let mut rows = store.list();
    rows[0].pad_metadata[40] ^= 1;
    assert!(matches!(session.get_node_tree(&rows), Err(Error::CryptoFailure)));
    assert!(session.pad_map.pads.is_empty());
    assert_eq!(session.current_state(), SessionState::Unlocked);
}

#[test]
fn opening_another_store_keeps_key_and_cache() {
    let mut session: Cipherpad<u8> = Cipherpad::new();
    session.open(1);
    session.unlock("hunter2", &SALT, &[]).unwrap();
    let key = session.master_key;
    session.open(2);
    assert_eq!(session.pool, Some(2));
    assert_eq!(session.master_key, key);
    assert_eq!(session.current_state(), SessionState::Unlocked);
}

#[test]
fn stored_salt_is_kept_and_a_missing_one_is_made() {
    assert_eq!(salt_or_new(Some([3u8; 16])), Ok(([3u8; 16], false)));
    let (first, fresh) = salt_or_new(None).unwrap();
    assert!(fresh);
    let (second, _) = salt_or_new(None).unwrap();
    assert_ne!(first, second);
}

#[test]
fn encrypted_pad_opens_its_metadata() {
    let key = [5u8; 32];
    let envelope = encrypt("{\"name\":\"n\"}".as_bytes(), &key).unwrap();
    let cached = EncryptedPad::new(9, Some(8), envelope.clone(), &key).unwrap();
    assert_eq!(cached.id, 9);
    assert_eq!(cached.parent_id, Some(8));
    assert_eq!(cached.metadata, "{\"name\":\"n\"}".to_string());
    assert!(matches!(EncryptedPad::new(9, None, envelope, &[6u8; 32]), Err(Error::CryptoFailure)));
    assert!(matches!(EncryptedPad::new(9, None, vec![1, 2, 3], &key), Err(Error::CryptoFailure)));
}

#[test]
fn encrypted_pad_names_its_row_in_requests() {
    let cached = EncryptedPad { id: 77, parent_id: None, metadata: String::new() };
    assert!(matches!(cached.delete_node(), StoreRequest::DeleteNode { id: 77 }));
    assert!(matches!(cached.clear_pad_data(), StoreRequest::ClearPadData { id: 77 }));
}

#[test]
fn pad_node_seals_metadata_and_body() {
    let key = [5u8; 32];
    let node = PadNode::new(3, pad(Some(2), "n", "the body"));
    match node.create_node(&key).unwrap() {
        StoreRequest::InsertNode { id, parent_id, pad_metadata, pad_data } => {
            assert_eq!(id, 3);
            assert_eq!(parent_id, Some(2));
            assert_eq!(
                decrypt_as_string(&pad_metadata, &key).unwrap(),
                "{\"type\":\"text\",\"name\":\"n\"}".to_string()
            );
            assert_eq!(decrypt_as_string(&pad_data, &key).unwrap(), "the body".to_string());
        }
        _ => panic!("not an insert"),
    }
    match node.encrypt_and_save(&key).unwrap() {
        StoreRequest::UpdateNode { id, parent_id, pad_metadata, pad_data } => {
            assert_eq!(id, 3);
            assert_eq!(parent_id, Some(2));
            assert_eq!(
                decrypt_as_string(&pad_metadata, &key).unwrap(),
                "{\"type\":\"text\",\"name\":\"n\"}".to_string()
            );
            assert_eq!(decrypt_as_string(&pad_data, &key).unwrap(), "the body".to_string());
        }
        _ => panic!("not an update"),
    }
}

fn file_metadata() -> BlobPadMetadata {
    BlobPadMetadata {
        pad_type: "file".to_string(),
        name: "x".to_string(),
        created_at: serde_json::Value::from(1700000000000u64),
        last_modified_at: serde_json::Value::Null,
        file_name: "x.bin".to_string(),
        encrypted_data_offset: 0,
    }
}

#[test]
fn metadata_takes_the_length_of_the_sidecar_envelope() {
    let metadata = file_metadata().for_sidecar(&[0u8; 68]);
    assert_eq!(metadata.encrypted_data_offset, 68);
    assert_eq!(metadata.pad_type, "file".to_string());
    assert_eq!(metadata.name, "x".to_string());
    assert_eq!(metadata.file_name, "x.bin".to_string());
    assert_eq!(metadata.created_at, serde_json::Value::from(1700000000000u64));
    assert_eq!(metadata.last_modified_at, serde_json::Value::Null);
}

#[test]
fn file_pad_round_trip() {
    let session = unlocked();
    let cached = EncryptedPad { id: 5, parent_id: None, metadata: String::new() };
    let file = vec![0xABu8; 10_000];
    let update = session.encrypt_file_to_pad(&cached, file_metadata(), &file).unwrap();
    assert_eq!(update.id, 5);
    assert_eq!(update.metadata.encrypted_data_offset, 68);
    assert_eq!(update.metadata.pad_type, "file".to_string());
    assert_eq!(update.metadata.name, "x".to_string());
    assert_eq!(update.metadata.file_name, "x.bin".to_string());
    assert_eq!(update.metadata.created_at, serde_json::Value::from(1700000000000u64));
    assert_eq!(update.metadata.last_modified_at, serde_json::Value::Null);
    assert_eq!(update.pad_data.len(), 10_200);
    let key = session.master_key.unwrap();
    assert_eq!(decrypt_pad_to_bytes(&update.pad_data, 68, &key).unwrap(), file);
    assert_eq!(
        cached.decrypt_pad_to_blob(&update.metadata, &key, &update.pad_data).unwrap(),
        file
    );
}

#[test]
fn file_pad_comes_back_as_base64_with_its_media_type() {
    let session = unlocked();
    let cached = EncryptedPad { id: 5, parent_id: None, metadata: String::new() };
    let update = session.encrypt_file_to_pad(&cached, file_metadata(), b"hello world~").unwrap();
    let (text, media_type) =
        session.decrypt_pad_to_blob(&cached, &update.metadata, &update.pad_data).unwrap();
    assert_eq!(text, "aGVsbG8gd29ybGR+".to_string());
    assert_eq!(media_type, "application/octet-stream".to_string());

    let png = b"\x89PNG\r\n\x1a\n\x00\x00\x00\rIHDR\x00\x00\x00\x01\x00\x00\x00\x01\x08\x02\x00\x00\x00";
    let update = session.encrypt_file_to_pad(&cached, file_metadata(), png).unwrap();
    let (text, media_type) =
        session.decrypt_pad_to_blob(&cached, &update.metadata, &update.pad_data).unwrap();
    assert_eq!(media_type, "image/png".to_string());
    assert_eq!(text, "iVBORw0KGgoAAAANSUhEUgAAAAEAAAABCAIAAAA=".to_string());
}

#[test]
fn changed_file_pad_does_not_come_back() {
    let session = unlocked();
    let cached = EncryptedPad { id: 5, parent_id: None, metadata: String::new() };
    let update = session.encrypt_file_to_pad(&cached, file_metadata(), &[7u8; 5000]).unwrap();
    let mut changed = update.pad_data.clone();
    changed[4500] ^= 1;
    assert!(matches!(
        session.decrypt_pad_to_blob(&cached, &update.metadata, &changed),
        Err(Error::CryptoFailure)
    ));
    assert!(matches!(
        session.decrypt_pad_to_blob(&cached, &update.metadata, &update.pad_data[..4000]),
        Err(Error::CorruptAttachment)
    ));
}

#[test]
fn file_commands_need_an_unlocked_session() {
    let mut session: Cipherpad<()> = Cipherpad::new();
    let cached = EncryptedPad { id: 5, parent_id: None, metadata: String::new() };
    assert!(matches!(
        session.encrypt_file_to_pad(&cached, file_metadata(), b"x"),
        Err(Error::StoreUnavailable)
    ));
    assert!(matches!(
        session.decrypt_pad_to_blob(&cached, &file_metadata(), b"x"),
        Err(Error::StoreUnavailable)
    ));
    session.open(());
    assert!(matches!(
        session.encrypt_file_to_pad(&cached, file_metadata(), b"x"),
        Err(Error::Locked)
    ));
    assert!(matches!(
        session.decrypt_pad_to_blob(&cached, &file_metadata(), b"x"),
        Err(Error::Locked)
    ));
}

#[test]
fn file_pad_that_is_too_large_is_refused() {
    let session = unlocked();
    let cached = EncryptedPad { id: 5, parent_id: None, metadata: String::new() };
    let file = vec![0u8; 987_463_744];
    assert!(matches!(
        session.encrypt_file_to_pad(&cached, file_metadata(), &file),
        Err(Error::FileTooLarge)
    ));
}

#[test]
fn blob_at_the_cap_is_corrupt() {
    let session = unlocked();
    let cached = EncryptedPad { id: 5, parent_id: None, metadata: String::new() };
    let blob = vec![0u8; 1_000_000_000];
    assert!(matches!(
        session.decrypt_pad_to_blob(&cached, &file_metadata(), &blob),
        Err(Error::CorruptAttachment)
    ));
}

#[test]
fn errors_have_their_text() {
    assert_eq!(Error::StoreUnavailable.message(), "No connection");
    assert_eq!(Error::Locked.message(), "No password");
    assert_eq!(Error::AlreadyUnlocked.message(), "Password has already been set");
    assert_eq!(Error::CryptoFailure.message(), "Decryption failed");
    assert_eq!(Error::CorruptAttachment.message(), "Attachment is corrupt");
    assert_eq!(Error::FileTooLarge.message(), "File is too large to store into Cipherpad.");
    assert_eq!(Error::StoreError.message(), "Database error");
    assert_eq!(Error::NotFound.message(), "No pad with that id");
}

#[test]
fn some_errors_leave_the_session_usable() {
    for e in [Error::Locked, Error::AlreadyUnlocked, Error::NotFound, Error::FileTooLarge] {
        assert!(e.is_recoverable());
    }
    for e in [
        Error::StoreUnavailable,
        Error::CryptoFailure,
        Error::CorruptAttachment,
        Error::StoreError,
    ] {
        assert!(!e.is_recoverable());
    }
}

#[test]
fn new_pad_map_is_empty() {
    assert!(PadMap::new().pads.is_empty());
}
