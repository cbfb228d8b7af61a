use m365backup_core::chunk::{Chunk, Chunker};
use m365backup_core::cliargs::{AppConfig, RepoConfig as AppRepoConfig, BackendConfig, TenantConfig};
use m365backup_core::crypto::{create_key_config, hash_blake3, hash_blake3_hex, CryptoEngine};
use m365backup_core::delta::DeltaState;
use m365backup_core::errors::Error;
use m365backup_core::graphdata::{item_path, DriveItem, ParentRef};
use m365backup_core::ids::new_uuid;
use m365backup_core::index::Index;
use m365backup_core::objstore::ObjectStore;
use m365backup_core::pack::{PackBuilder, PackFile};
use m365backup_core::repository::{emit_config, RepoConfig, Repository};
use m365backup_core::sanitize::sanitize_filename;
use m365backup_core::snapshot::{NodeType, Service, Snapshot};
use m365backup_core::timefmt::Timestamp;

fn chunk_of(data: &[u8]) -> Chunk {
    Chunk {
        hash: hash_blake3(data),
        offset: 0,
        length: data.len() as u64,
        data: data.to_vec(),
    }
}

fn fresh_repo() -> Repository {
    Repository::init(ObjectStore::new(), "local").unwrap()
}

// --- sanitization ----------------------------------------------------------

#[test]
fn sanitize_basic() {
    assert_eq!(sanitize_filename("Hello World"), "Hello World");
}

#[test]
fn sanitize_strips_unsafe_chars() {
    assert_eq!(sanitize_filename("Re: Hello/World"), "Re_ Hello_World");
}

#[test]
fn sanitize_strips_control_chars() {
    assert_eq!(sanitize_filename("Hello\x00World"), "Hello_World");
}

#[test]
fn sanitize_trims_dots_and_spaces() {
    assert_eq!(sanitize_filename("...test..."), "test");
    assert_eq!(sanitize_filename("  test  "), "test");
}

#[test]
fn sanitize_truncates_long_names() {
    let long = "a".repeat(200);
    assert_eq!(sanitize_filename(&long).len(), 100);
}

#[test]
fn sanitize_preserves_unicode() {
    assert_eq!(sanitize_filename("Ünïcödé Tëst"), "Ünïcödé Tëst");
}

#[test]
fn sanitize_truncates_at_char_boundary() {
    // 99 ASCII bytes, then a two-byte character: it must not be split
    let mut name = "a".repeat(99);
    name.push('é');
    let out = sanitize_filename(&name);
    assert_eq!(out.len(), 99);
    assert_eq!(out, "a".repeat(99));
}

#[test]
fn sanitize_replaces_every_listed_char() {
    assert_eq!(sanitize_filename("a/b\\c:d*e?f\"g<h>i|j"), "a_b_c_d_e_f_g_h_i_j");
}

// --- chunking --------------------------------------------------------------

#[test]
fn chunking_deterministic() {
    let data = vec![42u8; 4 * 1024 * 1024];
    let chunks1 = Chunker::chunk(&data);
    let chunks2 = Chunker::chunk(&data);
    assert_eq!(chunks1.len(), chunks2.len());
    for (a, b) in chunks1.iter().zip(chunks2.iter()) {
        assert_eq!(a.hash, b.hash);
    }
}

#[test]
fn small_data_single_chunk() {
    let data = vec![1u8; 1024];
    let chunks = Chunker::chunk(&data);
    assert_eq!(chunks.len(), 1);
    assert_eq!(chunks[0].data.len(), 1024);
}

#[test]
fn chunks_cover_input_exactly() {
    let data: Vec<u8> = (0u32..3 * 1024 * 1024).map(|i| (i * 31 % 251) as u8).collect();
    let chunks = Chunker::chunk(&data);
    let mut rebuilt: Vec<u8> = Vec::new();
    let mut offset = 0u64;
    for c in &chunks {
        assert_eq!(c.offset, offset);
        assert_eq!(c.length as usize, c.data.len());
        assert_eq!(c.hash, hash_blake3(&c.data));
        rebuilt.extend_from_slice(&c.data);
        offset += c.length;
    }
    assert_eq!(rebuilt, data);
}

// --- hashing and hex -------------------------------------------------------

#[test]
fn blake3_of_empty_input() {
    assert_eq!(
        hash_blake3_hex(b""),
        "af1349b9f5f9a1a6a0404dea36dcc9499bcb25c9adc112b7cc9a93cae41f3262"
    );
}

#[test]
fn hash_hex_matches_descriptor() {
    let c = chunk_of(b"abc");
    let hex = c.hash_hex();
    assert_eq!(hex.len(), 64);
    assert_eq!(hex, hash_blake3_hex(b"abc"));
    assert_eq!(c.to_ref().hash_hex(), hex);
}

#[test]
fn uuid_text_shape() {
    let id = new_uuid();
    assert_eq!(id.len(), 32);
    assert!(id.bytes().all(|b| b.is_ascii_digit() || (b'a'..=b'f').contains(&b)));
    assert_ne!(new_uuid(), id);
}

// --- packs -----------------------------------------------------------------

#[test]
fn pack_roundtrip() {
    let mut builder = PackBuilder::new();
    let data1 = b"hello world";
    let data2 = b"goodbye world";
    let chunk1 = chunk_of(data1);
    let chunk2 = chunk_of(data2);
    builder.add(&chunk1);
    builder.add(&chunk2);

    let pack = builder.finalize().unwrap();
    let parsed = PackFile::parse(pack.data.clone()).unwrap();

    assert_eq!(parsed.extract_blob(&chunk1.hash).unwrap(), data1);
    assert_eq!(parsed.extract_blob(&chunk2.hash).unwrap(), data2);
    assert!(parsed.extract_blob(&hash_blake3(b"unknown")).is_none());
    assert_eq!(parsed.id(), pack.id());
}

#[test]
fn pack_parse_rejects_garbage() {
    assert!(matches!(PackFile::parse(vec![1, 2, 3]), Err(Error::Parse)));
    assert!(matches!(PackFile::parse(vec![0, 0, 0, 0]), Err(Error::Parse)));
}

// --- index -----------------------------------------------------------------

#[test]
fn index_roundtrip_and_lookup() {
    let mut idx = Index::new();
    let h1 = hash_blake3(b"one");
    let h2 = hash_blake3(b"two");
    idx.add(h1, "p1".to_string(), 0, 3);
    idx.add(h2, "p2".to_string(), 3, 3);
    assert_eq!(idx.len(), 2);
    assert!(idx.contains(&h1));
    assert!(!idx.contains(&hash_blake3(b"three")));
    let loc = idx.lookup(&h2).unwrap();
    assert_eq!(loc.pack_id, "p2");
    assert_eq!(loc.offset, 3);
    assert_eq!(loc.length, 3);

    let bytes = idx.to_bytes().unwrap();
    let parsed = Index::from_bytes(&bytes).unwrap();
    assert_eq!(parsed.len(), 2);
    assert_eq!(parsed.lookup(&h1).unwrap().pack_id, "p1");
    assert_eq!(parsed.to_bytes().unwrap(), bytes);
}

#[test]
fn index_add_replaces() {
    let mut idx = Index::new();
    let h = hash_blake3(b"x");
    idx.add(h, "a".to_string(), 0, 1);
    idx.add(h, "b".to_string(), 5, 2);
    assert_eq!(idx.len(), 1);
    assert_eq!(idx.lookup(&h).unwrap().pack_id, "b");
}

// --- crypto ----------------------------------------------------------------

#[test]
fn roundtrip_encryption() {
    let (config, master_key) = create_key_config("test-passphrase").unwrap();
    let engine = CryptoEngine::new(&master_key);
    let plaintext = b"hello world";
    let encrypted = engine.encrypt(plaintext).unwrap();
    let decrypted = engine.decrypt(&encrypted).unwrap();
    assert_eq!(decrypted, plaintext);

    let engine2 = CryptoEngine::from_passphrase("test-passphrase", &config).unwrap();
    let decrypted2 = engine2.decrypt(&encrypted).unwrap();
    assert_eq!(decrypted2, plaintext);
}

#[test]
fn wrong_passphrase_fails() {
    let (config, _) = create_key_config("correct").unwrap();
    let result = CryptoEngine::from_passphrase("wrong", &config);
    assert!(result.is_err());
}

#[test]
fn decrypt_rejects_tampering() {
    let (_, master_key) = create_key_config("pw").unwrap();
    let engine = CryptoEngine::new(&master_key);
    let mut ct = engine.encrypt(b"payload").unwrap();
    assert_eq!(ct.len(), 7 + 28);
    let last = ct.len() - 1;
    ct[last] ^= 1;
    assert!(matches!(engine.decrypt(&ct), Err(Error::Crypto)));
    assert!(matches!(engine.decrypt(&[0u8; 5]), Err(Error::Crypto)));
}

// --- repository lifecycle --------------------------------------------------

#[test]
fn init_open_lifecycle() {
    let repo = fresh_repo();
    assert_eq!(repo.blob_count(), 0);

    let mut pre = ObjectStore::new();
    pre.write("config.json", b"whatever");
    assert!(matches!(
        Repository::init(pre, "local"),
        Err(Error::AlreadyInitialized)
    ));

    assert!(matches!(
        Repository::open(ObjectStore::new()),
        Err(Error::NotARepository)
    ));

    let mut store = ObjectStore::new();
    let config = RepoConfig {
        version: 1,
        created: "2024-01-15T10:00:00Z".to_string(),
        backend_type: "local".to_string(),
    };
    let mut bytes = Vec::new();
    emit_config(&mut bytes, &config);
    store.write("config.json", &bytes);
    let opened = Repository::open(store).unwrap();
    assert_eq!(opened.blob_count(), 0);
}

#[test]
fn open_rejects_unsupported_version() {
    let mut store = ObjectStore::new();
    let config = RepoConfig {
        version: 2,
        created: "2024-01-15T10:00:00Z".to_string(),
        backend_type: "local".to_string(),
    };
    let mut bytes = Vec::new();
    emit_config(&mut bytes, &config);
    store.write("config.json", &bytes);
    assert!(matches!(
        Repository::open(store),
        Err(Error::UnsupportedVersion(2))
    ));
}

#[test]
fn small_round_trip() {
    let mut repo = fresh_repo();
    let refs = repo.store_data(b"hello world").unwrap();
    assert_eq!(refs.len(), 1);
    assert_eq!(refs[0].length, 11);
    assert_eq!(refs[0].offset, 0);
    let back = repo.read_data(&refs).unwrap();
    assert_eq!(back, b"hello world");
}

#[test]
fn larger_round_trip() {
    let mut repo = fresh_repo();
    let data: Vec<u8> = (0u32..2 * 1024 * 1024 + 17).map(|i| (i % 257) as u8).collect();
    let refs = repo.store_data(&data).unwrap();
    let back = repo.read_data(&refs).unwrap();
    assert_eq!(back, data);
}

#[test]
fn dedup_second_store_adds_nothing() {
    let mut repo = fresh_repo();
    let data = vec![0x42u8; 4 * 1024 * 1024];
    let refs1 = repo.store_data(&data).unwrap();
    let packs_after_first = repo.verify().unwrap().packs_checked;
    assert!(packs_after_first >= 1);
    let blobs_after_first = repo.blob_count();

    let refs2 = repo.store_data(&data).unwrap();
    assert_eq!(refs1, refs2);
    assert_eq!(repo.verify().unwrap().packs_checked, packs_after_first);
    assert_eq!(repo.blob_count(), blobs_after_first);
}

#[test]
fn read_data_missing_blob() {
    let repo = fresh_repo();
    let refs = vec![m365backup_core::chunk::ChunkRef {
        hash: hash_blake3(b"never stored"),
        length: 12,
        offset: 0,
    }];
    assert!(matches!(repo.read_data(&refs), Err(Error::MissingBlob)));
}

// --- snapshots -------------------------------------------------------------

fn ts(sec: u32) -> Timestamp {
    Timestamp { year: 2024, month: 1, day: 15, hour: 10, minute: 0, second: sec }
}

#[test]
fn snapshot_listing_and_lookup() {
    let mut repo = fresh_repo();
    let mut snap_a = Snapshot::new("acme".to_string(), Service::OneDrive, None);
    snap_a.timestamp = ts(0);
    let mut snap_b = Snapshot::new("acme".to_string(), Service::OneDrive, None);
    snap_b.timestamp = ts(1);
    repo.save_snapshot(&snap_a).unwrap();
    repo.save_snapshot(&snap_b).unwrap();

    let listed = repo.list_snapshots().unwrap();
    assert_eq!(listed.len(), 2);
    assert_eq!(listed[0].id, snap_b.id);
    assert_eq!(listed[1].id, snap_a.id);

    let latest = repo
        .find_latest_snapshot("acme", Service::OneDrive, None)
        .unwrap()
        .unwrap();
    assert_eq!(latest.id, snap_b.id);

    let got = repo.get_snapshot(&snap_a.id[0..8]).unwrap();
    assert_eq!(got.id, snap_a.id);
    assert_eq!(got.tenant, snap_a.tenant);
    assert_eq!(got.timestamp, snap_a.timestamp);

    assert!(matches!(
        repo.get_snapshot("nosuchsnapshotid"),
        Err(Error::NotFound)
    ));
}

#[test]
fn snapshot_round_trip_preserves_record() {
    let mut repo = fresh_repo();
    let data = b"mail body bytes";
    let refs = repo.store_data(data).unwrap();

    let mut snap = Snapshot::new(
        "acme".to_string(),
        Service::Exchange,
        Some("someone@example.test".to_string()),
    );
    snap.timestamp = ts(30);
    snap.parent = Some("0123456789abcdef".to_string());
    snap.tree.nodes.push(m365backup_core::snapshot::TreeNode {
        path: "mail/Inbox/Hello_msg1.eml".to_string(),
        node_type: NodeType::Mail,
        size: data.len() as u64,
        modified: Some(ts(29)),
        chunks: refs.clone(),
        metadata: vec![("graph_id".to_string(), "msg1".to_string())],
    });
    snap.delta_tokens
        .push(("exchange:u1:mail:f1".to_string(), "token-\"quoted\"-€".to_string()));
    snap.stats.total_items = 1;
    snap.stats.total_bytes = data.len() as u64;

    repo.save_snapshot(&snap).unwrap();
    let got = repo.get_snapshot(&snap.id).unwrap();
    assert_eq!(got.id, snap.id);
    assert_eq!(got.timestamp, snap.timestamp);
    assert_eq!(got.tenant, snap.tenant);
    assert_eq!(got.service, snap.service);
    assert_eq!(got.user, snap.user);
    assert_eq!(got.parent, snap.parent);
    assert_eq!(got.tree.nodes.len(), 1);
    assert_eq!(got.tree.nodes[0].path, snap.tree.nodes[0].path);
    assert_eq!(got.tree.nodes[0].node_type, snap.tree.nodes[0].node_type);
    assert_eq!(got.tree.nodes[0].modified, snap.tree.nodes[0].modified);
    assert_eq!(got.tree.nodes[0].chunks, snap.tree.nodes[0].chunks);
    assert_eq!(got.tree.nodes[0].metadata, snap.tree.nodes[0].metadata);
    assert_eq!(got.delta_tokens, snap.delta_tokens);
    assert_eq!(got.stats, snap.stats);

    let back = repo.read_data(&got.tree.nodes[0].chunks).unwrap();
    assert_eq!(back, data);
}

#[test]
fn snapshot_serialization_round_trip() {
    let mut snap = Snapshot::new("t".to_string(), Service::Teams, None);
    snap.timestamp = ts(5);
    let bytes = snap.to_bytes().unwrap();
    let parsed = Snapshot::from_bytes(&bytes).unwrap();
    assert_eq!(parsed.id, snap.id);
    assert_eq!(parsed.timestamp, snap.timestamp);
    assert_eq!(parsed.to_bytes().unwrap(), bytes);
    assert_eq!(&snap.id[0..8], snap.short_id());
}

// --- verification ----------------------------------------------------------

#[test]
fn verify_clean_repository() {
    let mut repo = fresh_repo();
    repo.store_data(&vec![7u8; 1024 * 1024]).unwrap();
    let snap = Snapshot::new("acme".to_string(), Service::OneDrive, None);
    repo.save_snapshot(&snap).unwrap();

    let result = repo.verify().unwrap();
    assert!(result.is_ok());
    assert_eq!(result.snapshots_checked, 1);
    assert!(result.packs_checked >= 1);
    assert_eq!(result.blobs_checked as usize, repo.blob_count());
}

#[test]
fn verify_reports_missing_pack() {
    // an index entry whose pack was never written
    let mut store = ObjectStore::new();
    let config = RepoConfig {
        version: 1,
        created: "2024-01-15T10:00:00Z".to_string(),
        backend_type: "local".to_string(),
    };
    let mut bytes = Vec::new();
    emit_config(&mut bytes, &config);
    store.write("config.json", &bytes);

    let mut idx = Index::new();
    let h = hash_blake3(b"lost");
    idx.add(h, "ghost".to_string(), 0, 4);
    store.write("index.json", &idx.to_bytes().unwrap());

    let repo = Repository::open(store).unwrap();
    let result = repo.verify().unwrap();
    assert!(!result.is_ok());
    assert_eq!(result.errors.len(), 1);
    let expected = format!("blob {} references missing pack ghost", hash_blake3_hex(b"lost"));
    assert_eq!(result.errors[0], expected);
}

// --- delta tokens, services, helpers ---------------------------------------

#[test]
fn delta_state_keys_and_tokens() {
    assert_eq!(DeltaState::key("onedrive", "u1", "drive"), "onedrive:u1:drive");
    let mut st = DeltaState::new();
    assert!(st.get("onedrive:u1:drive").is_none());
    st.set("onedrive:u1:drive".to_string(), "t1".to_string());
    st.set("onedrive:u1:drive".to_string(), "t2".to_string());
    assert_eq!(st.get("onedrive:u1:drive"), Some("t2"));
}

#[test]
fn service_tags() {
    assert_eq!(Service::OneDrive.tag(), "onedrive");
    assert_eq!(Service::from_tag("Exchange"), Some(Service::Exchange));
    assert_eq!(Service::from_tag("sharepoint"), Some(Service::SharePoint));
    assert_eq!(Service::from_tag("nope"), None);
    assert_eq!(NodeType::Calendar.tag(), "calendar");
}

#[test]
fn timestamp_now_is_representable() {
    let t = Timestamp::now();
    assert!((1..=9999).contains(&t.year));
    assert!((1..=12).contains(&t.month));
    assert!((1..=31).contains(&t.day));
    assert!(t.hour <= 23 && t.minute <= 59 && t.second <= 59);
}

#[test]
fn drive_item_paths() {
    let item = DriveItem {
        id: "i1".to_string(),
        name: "file.txt".to_string(),
        parent_reference: Some(ParentRef {
            path: Some("/drive/root:/folder/sub".to_string()),
            drive_id: None,
        }),
        size: Some(1),
        file: None,
        folder: None,
        last_modified: None,
        download_url: None,
    };
    assert_eq!(item_path(&item), "folder/sub/file.txt");

    let mut bare = item.clone();
    bare.parent_reference = None;
    assert_eq!(item_path(&bare), "file.txt");

    let mut rooted = item.clone();
    rooted.parent_reference = Some(ParentRef {
        path: Some("/drive/root:/".to_string()),
        drive_id: None,
    });
    assert_eq!(item_path(&rooted), "file.txt");
}

#[test]
fn find_tenant_is_case_insensitive() {
    let config = AppConfig {
        repository: AppRepoConfig { backend: BackendConfig::Local { path: "/tmp/r".to_string() } },
        tenants: vec![TenantConfig {
            name: "Acme".to_string(),
            tenant_id: "tid".to_string(),
            client_id: "cid".to_string(),
            client_secret: "secret".to_string(),
        }],
    };
    assert_eq!(config.find_tenant("ACME").unwrap().name, "Acme");
    assert!(config.find_tenant("other").is_none());
}
