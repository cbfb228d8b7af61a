//! The repository coordinator: init and open, deduplicating chunk storage
//! into packs, reads back out of packs, snapshot persistence and lookup,
//! and integrity verification — over the in-memory object store.

use vstd::prelude::*;

use crate::chunk::ChunkRef;
use crate::chunk::Chunker;
use crate::crypto::blake3_of;
use crate::errors::Error;
use crate::index::keys_unique;
use crate::index::seq_contains_hash;
use crate::index::seq_loc_of;
use crate::index::BlobLocation;
use crate::index::Index;
use crate::jsonfmt::dec_u64;
use crate::jsonfmt::jstr;
use crate::objstore::key_in_dir;
use crate::objstore::store_has;
use crate::objstore::store_keys_unique;
use crate::objstore::store_val;
use crate::objstore::ObjectStore;
use crate::pack::PackBuilder;
use crate::snapshot::snap_wf;
use crate::snapshot::snapshot_json;
use crate::snapshot::Service;
use crate::snapshot::Snapshot;
use crate::strutil::bytes_of_str;
use crate::strutil::contains_seq;
use crate::timefmt::ts_text;
use crate::timefmt::Timestamp;

verus! {

/// The persisted repository configuration.
#[derive(Debug, Clone, PartialEq, Eq)]
pub struct RepoConfig {
    pub version: u32,
    pub created: String,
    pub backend_type: String,
}

/// The JSON text of the repository configuration.
pub open spec fn config_json(c: RepoConfig) -> Seq<u8> {
    bytes_of_str("{\"version\":"@) + (dec_u64(c.version as nat) + (seq![44u8] + (bytes_of_str(
        "\"created\":"@,
    ) + (jstr(c.created@) + (bytes_of_str(",\"backend_type\":"@) + (jstr(c.backend_type@)
        + seq![125u8]))))))
}

/// Appends the configuration document.
pub fn emit_config(out: &mut Vec<u8>, c: &RepoConfig)
    ensures
        final(out)@ == old(out)@ + config_json(*c),
{
    crate::jsonfmt::emit_lit(out, "{\"version\":");
    crate::jsonfmt::emit_u64(out, c.version as u64);
    out.push(44);
    crate::jsonfmt::emit_lit(out, "\"created\":");
    crate::jsonfmt::emit_jstr(out, c.created.as_str());
    crate::jsonfmt::emit_lit(out, ",\"backend_type\":");
    crate::jsonfmt::emit_jstr(out, c.backend_type.as_str());
    out.push(125);
    proof {
        assert(out@ =~= old(out)@ + config_json(*c));
    }
}

/// Parses a configuration document standing alone in the buffer: whatever
/// comes back re-serializes to exactly the bytes read, and the canonical
/// text of any configuration is read back as that configuration.
#[verifier::loop_isolation(false)]
#[verifier::rlimit(100)]
fn parse_config(data: &Vec<u8>) -> (r: Option<RepoConfig>)
    ensures
        r matches Some(c) ==> config_json(c) == data@,
        forall|c0: RepoConfig|
            data@ == #[trigger] config_json(c0) ==> (r matches Some(c) && c.version == c0.version
                && c.created@ == c0.created@ && c.backend_type@ == c0.backend_type@),
{
    let ghost l1 = bytes_of_str("{\"version\":"@);
    let ghost l2 = bytes_of_str("\"created\":"@);
    let ghost l3 = bytes_of_str(",\"backend_type\":"@);
    let p0 = match crate::jsonfmt::expect(data, 0, "{\"version\":") {
        Some(p) => p,
        None => {
            proof {
                assert forall|c0: RepoConfig| data@ == config_json(c0) implies false by {
                    let t = dec_u64(c0.version as nat) + (seq![44u8] + (l2 + (jstr(c0.created@)
                        + (l3 + (jstr(c0.backend_type@) + seq![125u8])))));
                    assert(data@.skip(0) =~= data@);
                    crate::jsonfmt::lemma_starts_with(data@, 0, l1, t);
                }
            }
            return None;
        },
    };
    proof {
        assert forall|c0: RepoConfig|
            data@ == config_json(c0) implies p0 == l1.len() && data@.skip(p0 as int) == dec_u64(
            (c0.version as u64) as nat,
        ) + (seq![44u8] + (l2 + (jstr(c0.created@) + (l3 + (jstr(c0.backend_type@)
            + seq![125u8]))))) by {
            let t = dec_u64(c0.version as nat) + (seq![44u8] + (l2 + (jstr(c0.created@) + (l3 + (
            jstr(c0.backend_type@) + seq![125u8])))));
            assert(data@.skip(0) =~= data@);
            crate::jsonfmt::lemma_starts_with(data@, 0, l1, t);
            assert((c0.version as u64) as nat == c0.version as nat);
        }
    }
    let (version, p1) = match crate::jsonfmt::parse_u64(data, p0) {
        Some(t) => t,
        None => {
            proof {
                assert forall|c0: RepoConfig| data@ == config_json(c0) implies false by {
                    let t1 = seq![44u8] + (l2 + (jstr(c0.created@) + (l3 + (jstr(
                        c0.backend_type@,
                    ) + seq![125u8]))));
                    assert(t1[0] == 44);
                }
            }
            return None;
        },
    };
    proof {
        assert forall|c0: RepoConfig|
            data@ == config_json(c0) implies version == c0.version as u64 && data@.skip(
            p1 as int,
        ) == seq![44u8] + (l2 + (jstr(c0.created@) + (l3 + (jstr(c0.backend_type@)
            + seq![125u8])))) by {
            let t1 = seq![44u8] + (l2 + (jstr(c0.created@) + (l3 + (jstr(c0.backend_type@)
                + seq![125u8]))));
            assert(t1[0] == 44);
            crate::jsonfmt::lemma_starts_with(
                data@,
                p0 as int,
                dec_u64((c0.version as u64) as nat),
                t1,
            );
        }
    }
    if version > u32::MAX as u64 {
        proof {
            assert forall|c0: RepoConfig| data@ == config_json(c0) implies false by {
                assert(version == c0.version as u64);
            }
        }
        return None;
    }
    let p2 = match crate::jsonfmt::expect_byte(data, p1, 44) {
        Some(p) => p,
        None => {
            proof {
                assert forall|c0: RepoConfig| data@ == config_json(c0) implies false by {
                    assert(data@.skip(p1 as int)[0] == data@[p1 as int]);
                }
            }
            return None;
        },
    };
    proof {
        assert forall|c0: RepoConfig|
            data@ == config_json(c0) implies data@.skip(p2 as int) == l2 + (jstr(c0.created@) + (
        l3 + (jstr(c0.backend_type@) + seq![125u8]))) by {
            let t2 = l2 + (jstr(c0.created@) + (l3 + (jstr(c0.backend_type@) + seq![125u8])));
            crate::jsonfmt::lemma_starts_with(data@, p1 as int, seq![44u8], t2);
        }
    }
    let p3 = match crate::jsonfmt::expect(data, p2, "\"created\":") {
        Some(p) => p,
        None => {
            proof {
                assert forall|c0: RepoConfig| data@ == config_json(c0) implies false by {
                    let t3 = jstr(c0.created@) + (l3 + (jstr(c0.backend_type@) + seq![125u8]));
                    crate::jsonfmt::lemma_starts_with(data@, p2 as int, l2, t3);
                }
            }
            return None;
        },
    };
    proof {
        assert forall|c0: RepoConfig|
            data@ == config_json(c0) implies p3 == p2 + l2.len() && data@.skip(p3 as int) == jstr(
            c0.created@,
        ) + (l3 + (jstr(c0.backend_type@) + seq![125u8])) by {
            let t3 = jstr(c0.created@) + (l3 + (jstr(c0.backend_type@) + seq![125u8]));
            crate::jsonfmt::lemma_starts_with(data@, p2 as int, l2, t3);
        }
    }
    let (created, p4) = match crate::jsonfmt::parse_string(data, p3) {
        Some(t) => t,
        None => {
            proof {
                assert forall|c0: RepoConfig| data@ == config_json(c0) implies false by {
                    assert(data@.skip(p3 as int) == jstr(c0.created@) + (l3 + (jstr(
                        c0.backend_type@,
                    ) + seq![125u8])));
                }
            }
            return None;
        },
    };
    proof {
        assert forall|c0: RepoConfig|
            data@ == config_json(c0) implies created@ == c0.created@ && data@.skip(p4 as int)
            == l3 + (jstr(c0.backend_type@) + seq![125u8]) by {
            let t4 = l3 + (jstr(c0.backend_type@) + seq![125u8]);
            crate::jsonfmt::lemma_starts_with(data@, p3 as int, jstr(c0.created@), t4);
        }
    }
    let p5 = match crate::jsonfmt::expect(data, p4, ",\"backend_type\":") {
        Some(p) => p,
        None => {
            proof {
                assert forall|c0: RepoConfig| data@ == config_json(c0) implies false by {
                    let t5 = jstr(c0.backend_type@) + seq![125u8];
                    crate::jsonfmt::lemma_starts_with(data@, p4 as int, l3, t5);
                }
            }
            return None;
        },
    };
    proof {
        assert forall|c0: RepoConfig|
            data@ == config_json(c0) implies data@.skip(p5 as int) == jstr(c0.backend_type@)
            + seq![125u8] by {
            let t5 = jstr(c0.backend_type@) + seq![125u8];
            crate::jsonfmt::lemma_starts_with(data@, p4 as int, l3, t5);
        }
    }
    let (backend_type, p6) = match crate::jsonfmt::parse_string(data, p5) {
        Some(t) => t,
        None => {
            proof {
                assert forall|c0: RepoConfig| data@ == config_json(c0) implies false by {
                    assert(data@.skip(p5 as int) == jstr(c0.backend_type@) + seq![125u8]);
                }
            }
            return None;
        },
    };
    proof {
        assert forall|c0: RepoConfig|
            data@ == config_json(c0) implies backend_type@ == c0.backend_type@ && data@.skip(
            p6 as int,
        ) == seq![125u8] by {
            crate::jsonfmt::lemma_starts_with(
                data@,
                p5 as int,
                jstr(c0.backend_type@),
                seq![125u8],
            );
        }
    }
    let p7 = match crate::jsonfmt::expect_byte(data, p6, 125) {
        Some(p) => p,
        None => {
            proof {
                assert forall|c0: RepoConfig| data@ == config_json(c0) implies false by {
                    assert(data@.skip(p6 as int)[0] == data@[p6 as int]);
                }
            }
            return None;
        },
    };
    if p7 != data.len() {
        proof {
            assert forall|c0: RepoConfig| data@ == config_json(c0) implies false by {
                crate::jsonfmt::lemma_starts_with(
                    data@,
                    p6 as int,
                    seq![125u8],
                    Seq::<u8>::empty(),
                );
                assert(data@.skip(p7 as int).len() == 0);
            }
        }
        return None;
    }
    let c = RepoConfig { version: version as u32, created, backend_type };
    proof {
        assert(data@.subrange(p1 as int, p2 as int) =~= seq![44u8]);
        assert(data@.subrange(p6 as int, p7 as int) =~= seq![125u8]);
        crate::jsonfmt::lemma_subrange_compose(data@, 0, p0 as int, p1 as int);
        crate::jsonfmt::lemma_subrange_compose(data@, 0, p1 as int, p2 as int);
        crate::jsonfmt::lemma_subrange_compose(data@, 0, p2 as int, p3 as int);
        crate::jsonfmt::lemma_subrange_compose(data@, 0, p3 as int, p4 as int);
        crate::jsonfmt::lemma_subrange_compose(data@, 0, p4 as int, p5 as int);
        crate::jsonfmt::lemma_subrange_compose(data@, 0, p5 as int, p6 as int);
        crate::jsonfmt::lemma_subrange_compose(data@, 0, p6 as int, p7 as int);
        assert(data@.subrange(0, data@.len() as int) =~= data@);
        assert(config_json(c) == data@);
    }
    Some(c)
}

/// The store key a pack lives under.
pub open spec fn pack_key(id: Seq<char>) -> Seq<char> {
    "packs/"@ + id
}

/// The store key a snapshot lives under.
pub open spec fn snapshot_key(id: Seq<char>) -> Seq<char> {
    "snapshots/"@ + id + ".json"@
}

/// The fixed keys and the two key families never collide.
pub proof fn lemma_key_shapes()
    ensures
        "config.json"@ != "index.json"@,
        forall|id: Seq<char>| #[trigger] pack_key(id) != "config.json"@,
        forall|id: Seq<char>| #[trigger] pack_key(id) != "index.json"@,
        forall|id: Seq<char>| #[trigger] snapshot_key(id) != "config.json"@,
        forall|id: Seq<char>| #[trigger] snapshot_key(id) != "index.json"@,
        forall|a: Seq<char>, b: Seq<char>| #[trigger] pack_key(a) != #[trigger] snapshot_key(b),
{
    reveal_strlit("config.json");
    reveal_strlit("index.json");
    reveal_strlit("packs/");
    reveal_strlit("snapshots/");
    reveal_strlit(".json");
    assert("config.json"@[0] == 'c' && "index.json"@[0] == 'i');
    assert(forall|id: Seq<char>| (#[trigger] pack_key(id))[0] == 'p');
    assert(forall|id: Seq<char>| (#[trigger] snapshot_key(id))[0] == 's');
}

/// Every pack key lies in the `packs` directory.
pub proof fn lemma_pack_key_in_dir(id: Seq<char>)
    ensures
        key_in_dir(pack_key(id), "packs"@),
{
    reveal_strlit("packs/");
    reveal_strlit("packs");
    assert(vstd::utf8::is_ascii_chars("packs/"@));
    assert(vstd::utf8::is_ascii_chars("packs"@));
    crate::jsonfmt::lemma_str_bytes_ascii("packs/");
    crate::jsonfmt::lemma_str_bytes_ascii("packs");
    crate::strutil::lemma_encode_utf8_concat("packs/"@, id);
    assert(bytes_of_str("packs/"@) =~= bytes_of_str("packs"@) + seq![47u8]);
    assert(bytes_of_str(pack_key(id)) == bytes_of_str("packs/"@) + bytes_of_str(id));
    let pref = bytes_of_str("packs"@) + seq![47u8];
    assert(bytes_of_str(pack_key(id)).subrange(0, pref.len() as int) =~= pref);
}

/// Where a blob's bytes live in the store, per an index entry.
pub open spec fn blob_at(
    objects: Seq<(Seq<char>, Seq<u8>)>,
    loc: BlobLocation,
) -> Seq<u8> {
    store_val(objects, pack_key(loc.pack_id@)).subrange(
        loc.offset as int,
        loc.offset + loc.length,
    )
}

/// One index entry is backed by the store: its pack exists, the descriptor
/// lies within it, and the stored bytes hash to the entry's key.
pub open spec fn entry_backed(
    objects: Seq<(Seq<char>, Seq<u8>)>,
    e: ([u8; 32], BlobLocation),
) -> bool {
    &&& store_has(objects, pack_key(e.1.pack_id@))
    &&& e.1.offset + e.1.length <= store_val(objects, pack_key(e.1.pack_id@)).len()
    &&& blake3_of(blob_at(objects, e.1)) == e.0@
}

/// Counters and findings of an integrity check.
#[derive(Debug)]
pub struct VerifyResult {
    pub packs_checked: u64,
    pub blobs_checked: u64,
    pub snapshots_checked: u64,
    pub errors: Vec<String>,
}

impl VerifyResult {
    /// Whether the check found nothing wrong.
    pub fn is_ok(&self) -> (r: bool)
        ensures
            r == (self.errors@.len() == 0),
    {
        self.errors.is_empty()
    }
}

/// The repository: an object store plus the in-memory blob index.
#[derive(Debug)]
pub struct Repository {
    store: ObjectStore,
    index: Index,
}

impl Repository {
    /// The stored objects.
    pub closed spec fn objects(&self) -> Seq<(Seq<char>, Seq<u8>)> {
        self.store.objects()
    }

    /// The index entries.
    pub closed spec fn index_view(&self) -> Seq<([u8; 32], BlobLocation)> {
        self.index.entries_view()
    }

    /// Both maps are well formed.
    pub open spec fn maps_wf(&self) -> bool {
        store_keys_unique(self.objects()) && keys_unique(self.index_view())
    }

    /// The central consistency invariant: every index entry points at an
    /// existing pack whose bytes, at the recorded offset and length, hash
    /// to the entry's key.
    pub open spec fn inv(&self) -> bool {
        &&& self.maps_wf()
        &&& forall|i: int|
            0 <= i < self.index_view().len() ==> entry_backed(
                self.objects(),
                #[trigger] self.index_view()[i],
            )
    }

    /// Every store key, in store order: the bridge point for durable
    /// mirrors of the in-memory store.
    pub fn store_keys(&self) -> (r: Vec<String>)
        ensures
            r@.len() == self.objects().len(),
            forall|i: int| 0 <= i < r@.len() ==> r@[i]@ == self.objects()[i].0,
    {
        self.store.keys()
    }

    /// The bytes stored under one key, if any.
    pub fn read_object(&self, key: &str) -> (r: Option<Vec<u8>>)
        requires
            self.maps_wf(),
        ensures
            r is Some <==> store_has(self.objects(), key@),
            r matches Some(v) ==> v@ == store_val(self.objects(), key@),
    {
        self.store.read(key)
    }

    /// The number of indexed blobs.
    pub fn blob_count(&self) -> (r: usize)
        ensures
            r == self.index_view().len(),
    {
        self.index.len()
    }

    /// Initializes a repository in an empty-of-config store: writes the
    /// configuration and an empty index. Fails exactly when a
    /// configuration already stands.
    pub fn init(store: ObjectStore, backend_type: &str) -> (r: Result<Repository, Error>)
        requires
            store.wf(),
        ensures
            r matches Ok(repo) ==> repo.inv() && repo.index_view().len() == 0 && store_has(
                repo.objects(),
                "config.json"@,
            ) && store_has(repo.objects(), "index.json"@) && store_val(
                repo.objects(),
                "index.json"@,
            ) == crate::index::index_json(Seq::empty()) && (exists|c: RepoConfig|
                #[trigger] config_json(c) == store_val(repo.objects(), "config.json"@)
                    && c.version == 1 && c.backend_type@ == backend_type@ && (exists|t: Timestamp|
                    t.wf() && bytes_of_str(c.created@) == #[trigger] ts_text(t))) && (forall|
                k: Seq<char>,
            |
                k != "config.json"@ && k != "index.json"@ ==> (#[trigger] store_has(
                    repo.objects(),
                    k,
                ) <==> store_has(store.objects(), k))) && (forall|k: Seq<char>|
                k != "config.json"@ && k != "index.json"@ && store_has(store.objects(), k)
                    ==> #[trigger] store_val(repo.objects(), k) == store_val(store.objects(), k)),
            r is Ok <==> !store_has(store.objects(), "config.json"@),
            r matches Err(e) ==> e == Error::AlreadyInitialized,
    {
        let ghost old_objects = store.objects();
        let mut store = store;
        if store.has_key("config.json") {
            return Err(Error::AlreadyInitialized);
        }
        let now = Timestamp::now();
        let created = ts_string(&now);
        let config = RepoConfig { version: 1, created, backend_type: backend_type.to_owned() };
        let mut cfg_bytes: Vec<u8> = Vec::new();
        emit_config(&mut cfg_bytes, &config);
        store.write("config.json", cfg_bytes.as_slice());
        let index = Index::new();
        let idx_bytes = match index.to_bytes() {
            Ok(b) => b,
            Err(_) => {
                proof {
                    assert(false);
                }
                Vec::new()
            },
        };
        proof {
            lemma_key_shapes();
        }
        store.write("index.json", idx_bytes.as_slice());
        proof {
            assert(store.val("config.json"@) == cfg_bytes@);
            assert(store.has("config.json"@) && store.has("index.json"@));
            assert(store.val("index.json"@) == idx_bytes@);
        }
        let repo = Repository { store, index };
        proof {
            assert(idx_bytes@ == crate::index::index_json(Seq::<([u8; 32], BlobLocation)>::empty()))
                by {
                assert(index.entries_view() =~= Seq::<([u8; 32], BlobLocation)>::empty());
            }
            assert(repo.inv());
            assert(cfg_bytes@ =~= Seq::<u8>::empty() + config_json(config));
            assert(config_json(config) == store_val(repo.objects(), "config.json"@));
            assert(now.wf() && bytes_of_str(config.created@) == ts_text(now));
            assert forall|k: Seq<char>| k != "config.json"@ && k != "index.json"@ implies (
            #[trigger] store_has(repo.objects(), k) <==> store_has(old_objects, k)) by {
                assert(store.has(k) <==> store_has(old_objects, k));
            }
            assert forall|k: Seq<char>|
                k != "config.json"@ && k != "index.json"@ && store_has(old_objects, k)
                implies #[trigger] store_val(repo.objects(), k) == store_val(old_objects, k) by {
                assert(store.val(k) == store_val(old_objects, k));
            }
        }
        Ok(repo)
    }
}

/// The twenty-byte text of a timestamp, as a string.
pub fn ts_string(t: &Timestamp) -> (r: String)
    requires
        t.wf(),
    ensures
        bytes_of_str(r@) == ts_text(*t),
{
    let mut out: Vec<u8> = Vec::new();
    crate::timefmt::emit_timestamp(&mut out, t);
    proof {
        crate::timefmt::lemma_ts_text_ascii(*t);
    }
    crate::strutil::ascii_to_string(out)
}

} // verus!

// === Storing data ==========================================================

verus! {

/// The builder's descriptors carry the hashes of their own payload slices.
pub open spec fn builder_hashes_ok(b: &PackBuilder) -> bool {
    forall|i: int|
        0 <= i < b.blobs_view().len() ==> blake3_of(
            b.data_view().subrange(
                (#[trigger] b.blobs_view()[i]).offset as int,
                b.blobs_view()[i].offset + b.blobs_view()[i].length,
            ),
        ) == b.blobs_view()[i].hash@
}

/// The returned references mirror the content-defined chunking of `data`:
/// one per cut segment, in order, carrying offset, length and content hash.
pub open spec fn is_ref_chunking(refs: Seq<ChunkRef>, data: Seq<u8>) -> bool {
    let lens = crate::chunk::cdc_lens(data);
    &&& refs.len() == lens.len()
    &&& forall|i: int|
        0 <= i < refs.len() ==> (#[trigger] refs[i]).offset == crate::chunk::seq_sum(
            lens.take(i),
        ) && refs[i].length == lens[i] && refs[i].hash@ == blake3_of(
            data.subrange(
                crate::chunk::seq_sum(lens.take(i)),
                crate::chunk::seq_sum(lens.take(i)) + lens[i],
            ),
        )
}

/// Every cut segment of `data` is already indexed.
pub open spec fn all_chunks_known(
    idx: Seq<([u8; 32], BlobLocation)>,
    data: Seq<u8>,
) -> bool {
    let lens = crate::chunk::cdc_lens(data);
    forall|i: int|
        0 <= i < lens.len() ==> seq_contains_hash(
            idx,
            blake3_of(
                data.subrange(
                    #[trigger] crate::chunk::seq_sum(lens.take(i)),
                    crate::chunk::seq_sum(lens.take(i)) + lens[i],
                ),
            ),
        )
}

impl Repository {
    /// Seals the builder, writes the pack under a fresh key, records each
    /// blob in the index, and rewrites the persisted index.
    #[verifier::loop_isolation(false)]
    #[verifier::rlimit(100)]
    fn flush_pack(&mut self, builder: PackBuilder) -> (r: Result<(), Error>)
        requires
            old(self).maps_wf(),
            builder.wf(),
            builder_hashes_ok(&builder),
        ensures
            final(self).maps_wf(),
            old(self).inv() ==> final(self).inv(),
            forall|h: Seq<u8>|
                seq_contains_hash(old(self).index_view(), h) ==> seq_contains_hash(
                    #[trigger] final(self).index_view(),
                    h,
                ),
            forall|h: Seq<u8>|
                seq_contains_hash(#[trigger] final(self).index_view(), h) ==> seq_contains_hash(
                    old(self).index_view(),
                    h,
                ) || exists|i: int|
                    0 <= i < builder.blobs_view().len() && (#[trigger] builder.blobs_view()[
                        i
                    ]).hash@ == h,
            r is Ok ==> forall|i: int|
                0 <= i < builder.blobs_view().len() ==> seq_contains_hash(
                    final(self).index_view(),
                    (#[trigger] builder.blobs_view()[i]).hash@,
                ),
            forall|k: Seq<char>|
                store_has(old(self).objects(), k) ==> store_has(
                    #[trigger] final(self).objects(),
                    k,
                ),
            forall|k: Seq<char>|
                k != "index.json"@ && store_has(old(self).objects(), k) ==> #[trigger] store_val(
                    final(self).objects(),
                    k,
                ) == store_val(old(self).objects(), k),
            forall|k: Seq<char>|
                #[trigger] store_has(final(self).objects(), k) ==> store_has(
                    old(self).objects(),
                    k,
                ) || k == "index.json"@ || k == pack_key(builder.id_view()),
            r matches Err(e) ==> e == Error::Store,
            r is Err ==> store_has(old(self).objects(), pack_key(builder.id_view()))
                || crate::pack::manifest_json(builder.id_view(), builder.blobs_view()).len()
                > u32::MAX,
    {
        proof {
            lemma_key_shapes();
        }
        let ghost old_objects = self.store.objects();
        let ghost old_index = self.index.entries_view();
        let ghost binv = old(self).inv();
        let ghost bdata = builder.data_view();
        let pack = match builder.finalize() {
            Ok(p) => p,
            Err(_) => {
                return Err(Error::Store);
            },
        };
        let pack_id = pack.header.id.clone();
        let pkey = crate::strutil::concat_str("packs/", pack_id.as_str());
        if self.store.has_key(pkey.as_str()) {
            // a colliding pack id: never overwrite an existing pack
            return Err(Error::Store);
        }
        self.store.write(pkey.as_str(), pack.data.as_slice());
        let ghost wstore = self.store;
        proof {
            assert(pkey@ == pack_key(pack_id@));
            assert(self.store.val(pkey@) == pack.data@);
            assert forall|j: int|
                0 <= j < pack.header.blobs@.len() implies entry_backed(
                self.store.objects(),
                ((#[trigger] pack.header.blobs@[j]).hash, BlobLocation {
                    pack_id: pack_id,
                    offset: pack.header.blobs@[j].offset,
                    length: pack.header.blobs@[j].length,
                }),
            ) by {
                let pb = pack.header.blobs@[j];
                assert(pb.offset + pb.length <= pack.payload_len());
                assert(pack.payload_len() == bdata.len());
                assert(pack.data@.subrange(pb.offset as int, pb.offset + pb.length)
                    =~= bdata.subrange(pb.offset as int, pb.offset + pb.length));
            }
            if binv {
                assert forall|i: int|
                    0 <= i < self.index.entries_view().len() implies entry_backed(
                    self.store.objects(),
                    #[trigger] self.index.entries_view()[i],
                ) by {
                    let e = self.index.entries_view()[i];
                    assert(entry_backed(old_objects, e));
                    assert(pack_key(e.1.pack_id@) != pkey@);
                    assert(self.store.has(pack_key(e.1.pack_id@)));
                    assert(self.store.val(pack_key(e.1.pack_id@)) == store_val(
                        old_objects,
                        pack_key(e.1.pack_id@),
                    ));
                }
            }
        }
        let mut j: usize = 0;
        while j < pack.header.blobs.len()
            invariant
                j <= pack.header.blobs@.len(),
                self.index.wf(),
                self.store == wstore,
                self.store.wf(),
                forall|h: Seq<u8>|
                    seq_contains_hash(old_index, h) ==> seq_contains_hash(
                        #[trigger] self.index.entries_view(),
                        h,
                    ),
                forall|h: Seq<u8>|
                    seq_contains_hash(#[trigger] self.index.entries_view(), h)
                        ==> seq_contains_hash(old_index, h) || exists|i: int|
                        0 <= i < pack.header.blobs@.len() && (#[trigger] pack.header.blobs@[
                            i
                        ]).hash@ == h,
                forall|i: int|
                    0 <= i < j ==> seq_contains_hash(
                        self.index.entries_view(),
                        (#[trigger] pack.header.blobs@[i]).hash@,
                    ),
                binv ==> forall|i: int|
                    0 <= i < self.index.entries_view().len() ==> entry_backed(
                        self.store.objects(),
                        #[trigger] self.index.entries_view()[i],
                    ),
            decreases pack.header.blobs@.len() - j,
        {
            let b = &pack.header.blobs[j];
            let ghost pre = self.index.entries_view();
            self.index.add(b.hash, pack_id.clone(), b.offset, b.length);
            proof {
                let e = (b.hash, BlobLocation {
                    pack_id: pack_id,
                    offset: b.offset,
                    length: b.length,
                });
                assert(seq_contains_hash(self.index.entries_view(), b.hash@)) by {
                    assert(self.index.contains_hash(b.hash@));
                }
                assert forall|h: Seq<u8>| seq_contains_hash(pre, h) implies seq_contains_hash(
                    self.index.entries_view(),
                    h,
                ) by {
                    if h != b.hash@ {
                        assert(self.index.contains_hash(h) == seq_contains_hash(
                            self.index.entries_view(),
                            h,
                        ));
                    }
                }
                assert forall|h: Seq<u8>|
                    seq_contains_hash(self.index.entries_view(), h) && h != b.hash@
                    implies seq_contains_hash(pre, h) by {
                    assert(self.index.contains_hash(h) == seq_contains_hash(
                        self.index.entries_view(),
                        h,
                    ));
                }
                if binv {
                    assert forall|i: int|
                        0 <= i < self.index.entries_view().len() implies entry_backed(
                        self.store.objects(),
                        #[trigger] self.index.entries_view()[i],
                    ) by {
                        let cur = self.index.entries_view()[i];
                        if cur.0@ == b.hash@ {
                            crate::index::lemma_seq_loc_at(self.index.entries_view(), i);
                            assert(self.index.loc_of(b.hash@) == e.1);
                            assert(cur.1 == e.1);
                        } else {
                            assert(seq_contains_hash(self.index.entries_view(), cur.0@)) by {
                                assert(self.index.entries_view()[i].0@ == cur.0@);
                            }
                            assert(seq_contains_hash(pre, cur.0@));
                            let m = choose|m: int|
                                0 <= m < pre.len() && pre[m].0@ == cur.0@;
                            crate::index::lemma_seq_loc_at(pre, m);
                            crate::index::lemma_seq_loc_at(self.index.entries_view(), i);
                            assert(self.index.loc_of(cur.0@) == seq_loc_of(
                                self.index.entries_view(),
                                cur.0@,
                            ));
                            assert(cur.1 == pre[m].1);
                            assert(entry_backed(self.store.objects(), pre[m]));
                        }
                    }
                }
            }
            j += 1;
        }
        let idx_bytes = match self.index.to_bytes() {
            Ok(b) => b,
            Err(_) => {
                proof {
                    assert(false);
                }
                Vec::new()
            },
        };
        let ghost mid_objects = self.store.objects();
        self.store.write("index.json", idx_bytes.as_slice());
        proof {
            if binv {
                assert forall|i: int|
                    0 <= i < self.index.entries_view().len() implies entry_backed(
                    self.store.objects(),
                    #[trigger] self.index.entries_view()[i],
                ) by {
                    let e = self.index.entries_view()[i];
                    assert(entry_backed(mid_objects, e));
                    assert(pack_key(e.1.pack_id@) != "index.json"@);
                    assert(self.store.val(pack_key(e.1.pack_id@)) == store_val(
                        mid_objects,
                        pack_key(e.1.pack_id@),
                    ));
                    assert(self.store.has(pack_key(e.1.pack_id@)));
                }
            }
            assert forall|k: Seq<char>|
                k != "index.json"@ && store_has(old_objects, k) implies store_val(
                self.store.objects(),
                k,
            ) == store_val(old_objects, k) by {
                assert(k != pkey@);
                assert(wstore.has(k) && wstore.val(k) == store_val(old_objects, k));
                assert(self.store.val(k) == wstore.val(k));
            }
            assert forall|k: Seq<char>| store_has(old_objects, k) implies store_has(
                self.store.objects(),
                k,
            ) by {
                assert(k != pkey@ || k == pkey@);
                assert(wstore.has(k));
                assert(self.store.has(k));
            }
            assert forall|k: Seq<char>|
                #[trigger] store_has(self.store.objects(), k) implies store_has(old_objects, k)
                || k == "index.json"@ || k == pkey@ by {
                if k != "index.json"@ && k != pkey@ {
                    assert(self.store.has(k) <==> wstore.has(k));
                    assert(wstore.has(k) <==> store_has(old_objects, k));
                }
            }
        }
        Ok(())
    }

    /// Chunks `data`, stores every chunk whose hash is not yet indexed into
    /// packs (flushing whenever a pack reaches its target size), and
    /// returns the chunk references in input order. When every chunk is
    /// already known, nothing changes at all.
    #[verifier::loop_isolation(false)]
    #[verifier::rlimit(100)]
    pub fn store_data(&mut self, data: &[u8]) -> (r: Result<Vec<ChunkRef>, Error>)
        requires
            old(self).maps_wf(),
        ensures
            final(self).maps_wf(),
            old(self).inv() ==> final(self).inv(),
            forall|h: Seq<u8>|
                seq_contains_hash(old(self).index_view(), h) ==> seq_contains_hash(
                    #[trigger] final(self).index_view(),
                    h,
                ),
            forall|k: Seq<char>|
                store_has(old(self).objects(), k) ==> store_has(
                    #[trigger] final(self).objects(),
                    k,
                ),
            forall|k: Seq<char>|
                k != "index.json"@ && store_has(old(self).objects(), k) ==> #[trigger] store_val(
                    final(self).objects(),
                    k,
                ) == store_val(old(self).objects(), k),
            r matches Ok(refs) ==> is_ref_chunking(refs@, data@) && crate::chunk::seq_sum(
                crate::chunk::cdc_lens(data@),
            ) == data@.len(),
            r matches Ok(refs) ==> forall|i: int|
                0 <= i < refs@.len() ==> seq_contains_hash(
                    final(self).index_view(),
                    (#[trigger] refs@[i]).hash@,
                ),
            forall|k: Seq<char>|
                #[trigger] store_has(final(self).objects(), k) ==> store_has(
                    old(self).objects(),
                    k,
                ) || k == "index.json"@ || key_in_dir(k, "packs"@),
            all_chunks_known(old(self).index_view(), data@) ==> final(self).objects() == old(
                self,
            ).objects() && final(self).index_view() == old(self).index_view() && r is Ok,
            r matches Err(e) ==> e == Error::Store,
            r is Err ==> exists|id: Seq<char>|
                #[trigger] crate::ids::uuid_text(id) && (store_has(
                    final(self).objects(),
                    pack_key(id),
                ) || exists|bs: Seq<crate::pack::PackedBlob>|
                    (#[trigger] crate::pack::manifest_json(id, bs)).len() > u32::MAX),
    {
        let ghost old_objects = old(self).objects();
        let ghost old_index = old(self).index_view();
        let ghost lens = crate::chunk::cdc_lens(data@);
        let chunks = Chunker::chunk(data);
        let mut refs: Vec<ChunkRef> = Vec::new();
        let mut builder = PackBuilder::new();
        let mut i: usize = 0;
        while i < chunks.len()
            invariant
                i <= chunks@.len(),
                refs@.len() == i,
                self.index.wf(),
                self.store.wf(),
                builder.wf(),
                builder_hashes_ok(&builder),
                builder.data_view().len() < crate::pack::TARGET_PACK_SIZE,
                crate::chunk::is_chunking_of(chunks@, data@),
                crate::chunk::seq_sum(lens) == data@.len(),
                forall|j: int|
                    0 <= j < i ==> (#[trigger] refs@[j]).offset == chunks@[j].offset && refs@[
                        j
                    ].length == chunks@[j].length && refs@[j].hash@ == chunks@[j].hash@,
                old(self).inv() ==> self.inv(),
                forall|h: Seq<u8>|
                    seq_contains_hash(old_index, h) ==> seq_contains_hash(
                        #[trigger] self.index.entries_view(),
                        h,
                    ),
                forall|k: Seq<char>|
                    store_has(old_objects, k) ==> store_has(#[trigger] self.store.objects(), k),
                forall|k: Seq<char>|
                    k != "index.json"@ && store_has(old_objects, k) ==> #[trigger] store_val(
                        self.store.objects(),
                        k,
                    ) == store_val(old_objects, k),
                forall|k: Seq<char>|
                    #[trigger] store_has(self.store.objects(), k) ==> store_has(old_objects, k)
                        || k == "index.json"@ || key_in_dir(k, "packs"@),
                forall|j: int|
                    0 <= j < i ==> seq_contains_hash(
                        self.index.entries_view(),
                        (#[trigger] chunks@[j]).hash@,
                    ) || exists|m: int|
                        0 <= m < builder.blobs_view().len() && (#[trigger] builder.blobs_view()[
                            m
                        ]).hash@ == chunks@[j].hash@,
                all_chunks_known(old_index, data@) ==> self.objects() == old_objects
                    && self.index.entries_view() == old_index && builder.blobs_view().len() == 0,
            decreases chunks@.len() - i,
        {
            let c = &chunks[i];
            refs.push(c.to_ref());
            proof {
                crate::chunk::lemma_sum_split(lens, i as int);
                crate::chunk::lemma_sum_nonneg(lens.take(i as int));
                crate::chunk::lemma_sum_nonneg(lens.skip(i as int));
                assert(lens.skip(i as int)[0] == lens[i as int]);
                assert(lens.skip(i as int).len() > 0);
                assert(lens.skip(i as int).skip(1) =~= lens.skip(i + 1));
                crate::chunk::lemma_sum_nonneg(lens.skip(i + 1));
                assert(crate::chunk::seq_sum(lens.skip(i as int)) == lens[i as int]
                    + crate::chunk::seq_sum(lens.skip(i + 1)));
                assert(0 <= crate::chunk::seq_sum(lens.take(i as int)));
                assert(crate::chunk::seq_sum(lens.take(i as int)) + lens[i as int]
                    <= data@.len());
                assert(crate::chunk::chunk_at(
                    chunks@[i as int],
                    data@,
                    crate::chunk::seq_sum(lens.take(i as int)),
                    lens[i as int] as int,
                ));
                if all_chunks_known(old_index, data@) {
                    assert(seq_contains_hash(
                        old_index,
                        blake3_of(
                            data@.subrange(
                                crate::chunk::seq_sum(lens.take(i as int)),
                                crate::chunk::seq_sum(lens.take(i as int)) + lens[i as int],
                            ),
                        ),
                    ));
                    assert(seq_contains_hash(old_index, chunks@[i as int].hash@));
                }
            }
            if !self.index.contains(&c.hash) {
                proof {
                    assert(c.data@.len() == c.length);
                    assert(1 <= lens[i as int] <= crate::chunk::MAX_CHUNK);
                    assert(c.data@.len() <= crate::chunk::MAX_CHUNK);
                }
                let ghost pre_b = builder;
                builder.add(c);
                proof {
                    assert forall|m: int| 0 <= m < builder.blobs_view().len() implies blake3_of(
                        builder.data_view().subrange(
                            (#[trigger] builder.blobs_view()[m]).offset as int,
                            builder.blobs_view()[m].offset + builder.blobs_view()[m].length,
                        ),
                    ) == builder.blobs_view()[m].hash@ by {
                        if m < pre_b.blobs_view().len() {
                            assert(builder.blobs_view()[m] == pre_b.blobs_view()[m]);
                            let pb = pre_b.blobs_view()[m];
                            assert(builder.data_view().subrange(
                                pb.offset as int,
                                pb.offset + pb.length,
                            ) =~= pre_b.data_view().subrange(pb.offset as int, pb.offset + pb.length));
                        } else {
                            let pb = builder.blobs_view()[m];
                            assert(builder.data_view().subrange(
                                pb.offset as int,
                                pb.offset + pb.length,
                            ) =~= c.data@);
                            assert(blake3_of(c.data@) == c.hash@);
                        }
                    }
                }
                proof {
                    assert(builder.blobs_view()[builder.blobs_view().len() - 1].hash@
                        == chunks@[i as int].hash@);
                    assert forall|j: int|
                        0 <= j <= i implies seq_contains_hash(
                        self.index.entries_view(),
                        (#[trigger] chunks@[j]).hash@,
                    ) || exists|m: int|
                        0 <= m < builder.blobs_view().len() && (#[trigger] builder.blobs_view()[
                            m
                        ]).hash@ == chunks@[j].hash@ by {
                        if j < i && !seq_contains_hash(
                            self.index.entries_view(),
                            chunks@[j].hash@,
                        ) {
                            let m = choose|m: int|
                                0 <= m < pre_b.blobs_view().len() && pre_b.blobs_view()[m].hash@
                                    == chunks@[j].hash@;
                            assert(builder.blobs_view()[m].hash@ == chunks@[j].hash@);
                        }
                    }
                }
                if builder.should_flush() {
                    let ghost fb = builder;
                    let ghost old_flush_index = Ghost(self.index.entries_view());
                    let ghost pre_flush = self.store.objects();
                    match self.flush_pack(builder) {
                        Ok(()) => {},
                        Err(e) => {
                            proof {
                                assert(crate::ids::uuid_text(fb.id_view()));
                                if store_has(pre_flush, pack_key(fb.id_view())) {
                                    assert(store_has(
                                        self.store.objects(),
                                        pack_key(fb.id_view()),
                                    ));
                                } else {
                                    assert(crate::pack::manifest_json(
                                        fb.id_view(),
                                        fb.blobs_view(),
                                    ).len() > u32::MAX);
                                }
                                lemma_frame_step(old_objects, pre_flush, self.store.objects(),
                                    fb.id_view());
                            }
                            return Err(e);
                        },
                    }
                    builder = PackBuilder::new();
                    proof {
                        lemma_frame_step(old_objects, pre_flush, self.store.objects(),
                            fb.id_view());
                    }
                    proof {
                        assert forall|j: int|
                            0 <= j <= i implies seq_contains_hash(
                            self.index.entries_view(),
                            (#[trigger] chunks@[j]).hash@,
                        ) by {
                            if seq_contains_hash(old_flush_index@, chunks@[j].hash@) {
                            } else {
                                let m = choose|m: int|
                                    0 <= m < fb.blobs_view().len() && fb.blobs_view()[m].hash@
                                        == chunks@[j].hash@;
                                assert(seq_contains_hash(
                                    self.index.entries_view(),
                                    fb.blobs_view()[m].hash@,
                                ));
                            }
                        }
                    }
                }
            } else {
                proof {
                    assert(self.index.contains_hash(c.hash@));
                    assert(chunks@[i as int].hash@ == c.hash@);
                }
            }
            i += 1;
        }
        if !builder.is_empty() {
            let ghost fb = builder;
            let ghost pre_flush = self.store.objects();
            match self.flush_pack(builder) {
                Ok(()) => {},
                Err(e) => {
                    proof {
                        assert(crate::ids::uuid_text(fb.id_view()));
                        if store_has(pre_flush, pack_key(fb.id_view())) {
                            assert(store_has(self.store.objects(), pack_key(fb.id_view())));
                        } else {
                            assert(crate::pack::manifest_json(fb.id_view(), fb.blobs_view()).len()
                                > u32::MAX);
                        }
                        lemma_frame_step(old_objects, pre_flush, self.store.objects(),
                            fb.id_view());
                    }
                    return Err(e);
                },
            }
            proof {
                lemma_frame_step(old_objects, pre_flush, self.store.objects(), fb.id_view());
            }
        } else {
            proof {
                assert(builder.blobs_view().len() == 0);
            }
        }
        proof {
            assert(is_ref_chunking(refs@, data@)) by {
                assert(forall|j: int|
                    0 <= j < refs@.len() ==> crate::chunk::chunk_at(
                        #[trigger] chunks@[j],
                        data@,
                        crate::chunk::seq_sum(lens.take(j)),
                        lens[j] as int,
                    ));
            }
        }
        Ok(refs)
    }
}

} // verus!

// === Reading, snapshots, verification ======================================

verus! {

/// The concatenation of the indexed blob bytes for `refs[k..]`.
pub open spec fn blobs_cat(
    objects: Seq<(Seq<char>, Seq<u8>)>,
    idx: Seq<([u8; 32], BlobLocation)>,
    refs: Seq<ChunkRef>,
    k: int,
) -> Seq<u8>
    decreases refs.len() - k,
{
    if k < 0 || k >= refs.len() {
        Seq::empty()
    } else {
        blob_at(objects, seq_loc_of(idx, refs[k].hash@)) + blobs_cat(objects, idx, refs, k + 1)
    }
}

impl Repository {
    /// Reads the referenced chunks back, in order, out of their packs.
    /// Under the invariant it succeeds exactly when every hash is indexed.
    #[verifier::loop_isolation(false)]
    #[verifier::rlimit(60)]
    pub fn read_data(&self, chunk_refs: &[ChunkRef]) -> (r: Result<Vec<u8>, Error>)
        requires
            self.maps_wf(),
        ensures
            r matches Ok(out) ==> out@ == blobs_cat(
                self.objects(),
                self.index_view(),
                chunk_refs@,
                0,
            ) && forall|i: int|
                0 <= i < chunk_refs@.len() ==> seq_contains_hash(
                    self.index_view(),
                    (#[trigger] chunk_refs@[i]).hash@,
                ),
            self.inv() ==> (r is Ok <==> forall|i: int|
                0 <= i < chunk_refs@.len() ==> seq_contains_hash(
                    self.index_view(),
                    (#[trigger] chunk_refs@[i]).hash@,
                )),
            r matches Err(e) ==> e == Error::MissingBlob || e == Error::Store || e == Error::Parse,
            self.inv() ==> (r matches Err(e) ==> e == Error::MissingBlob),
    {
        let mut out: Vec<u8> = Vec::new();
        let mut i: usize = 0;
        let ghost objects = self.objects();
        let ghost idx = self.index_view();
        while i < chunk_refs.len()
            invariant
                i <= chunk_refs@.len(),
                objects == self.objects(),
                idx == self.index_view(),
                forall|j: int|
                    0 <= j < i ==> seq_contains_hash(idx, (#[trigger] chunk_refs@[j]).hash@),
                out@ + blobs_cat(objects, idx, chunk_refs@, i as int) == blobs_cat(
                    objects,
                    idx,
                    chunk_refs@,
                    0,
                ),
            decreases chunk_refs@.len() - i,
        {
            let cr = &chunk_refs[i];
            let loc = match self.index.lookup(&cr.hash) {
                Some(l) => l,
                None => {
                    proof {
                        if self.inv() {
                            assert(!seq_contains_hash(idx, chunk_refs@[i as int].hash@));
                        }
                    }
                    return Err(Error::MissingBlob);
                },
            };
            let pkey = crate::strutil::concat_str("packs/", loc.pack_id.as_str());
            let offset = loc.offset;
            let length = loc.length;
            let ghost gloc = self.index.loc_of(cr.hash@);
            let pack_data = match self.store.read(pkey.as_str()) {
                Some(d) => d,
                None => {
                    proof {
                        if self.inv() {
                            let m = choose|m: int|
                                0 <= m < idx.len() && idx[m].0@ == chunk_refs@[i as int].hash@;
                            crate::index::lemma_seq_loc_at(idx, m);
                            assert(entry_backed(objects, idx[m]));
                            assert(false);
                        }
                    }
                    return Err(Error::Store);
                },
            };
            if (offset as u64) + (length as u64) > pack_data.len() as u64 {
                proof {
                    if self.inv() {
                        let m = choose|m: int|
                            0 <= m < idx.len() && idx[m].0@ == chunk_refs@[i as int].hash@;
                        crate::index::lemma_seq_loc_at(idx, m);
                        assert(entry_backed(objects, idx[m]));
                        assert(false);
                    }
                }
                return Err(Error::Parse);
            }
            let blob = vstd::slice::slice_subrange(
                pack_data.as_slice(),
                offset as usize,
                offset as usize + length as usize,
            );
            let ghost pre_out = out@;
            out.extend_from_slice(blob);
            proof {
                assert(pkey@ == pack_key(gloc.pack_id@));
                assert(blob@ == blob_at(objects, gloc));
                assert(blobs_cat(objects, idx, chunk_refs@, i as int) == blob_at(objects, gloc)
                    + blobs_cat(objects, idx, chunk_refs@, i + 1));
                assert(pre_out + (blob@ + blobs_cat(objects, idx, chunk_refs@, i + 1)) =~= (
                pre_out + blob@) + blobs_cat(objects, idx, chunk_refs@, i + 1));
            }
            i += 1;
        }
        proof {
            assert(blobs_cat(objects, idx, chunk_refs@, i as int) =~= Seq::<u8>::empty());
            assert(out@ + Seq::<u8>::empty() =~= out@);
        }
        Ok(out)
    }

    /// Persists a snapshot under its id.
    #[verifier::spinoff_prover]
    #[verifier::rlimit(100)]
    pub fn save_snapshot(&mut self, snapshot: &Snapshot) -> (r: Result<(), Error>)
        requires
            old(self).maps_wf(),
            snap_wf(*snapshot),
        ensures
            final(self).maps_wf(),
            old(self).inv() ==> final(self).inv(),
            final(self).index_view() == old(self).index_view(),
            r is Ok,
            store_has(final(self).objects(), snapshot_key(snapshot.id@)),
            store_val(final(self).objects(), snapshot_key(snapshot.id@)) == snapshot_json(
                *snapshot,
            ),
            forall|k: Seq<char>|
                k != snapshot_key(snapshot.id@) ==> (#[trigger] store_has(
                    final(self).objects(),
                    k,
                ) <==> store_has(old(self).objects(), k)),
            forall|k: Seq<char>|
                k != snapshot_key(snapshot.id@) && store_has(old(self).objects(), k)
                    ==> #[trigger] store_val(final(self).objects(), k) == store_val(
                    old(self).objects(),
                    k,
                ),
    {
        let ghost old_objects = self.store.objects();
        let mut key = crate::strutil::concat_str("snapshots/", snapshot.id.as_str());
        let key = crate::strutil::concat_str(key.as_str(), ".json");
        let bytes = match snapshot.to_bytes() {
            Ok(b) => b,
            Err(_) => {
                proof {
                    assert(false);
                }
                Vec::new()
            },
        };
        self.store.write(key.as_str(), bytes.as_slice());
        proof {
            lemma_key_shapes();
            assert(key@ == snapshot_key(snapshot.id@)) by {
                assert("snapshots/"@ + snapshot.id@ + ".json"@ == ("snapshots/"@ + snapshot.id@)
                    + ".json"@);
            }
            assert(self.store.val(key@) == bytes@);
            assert forall|k: Seq<char>|
                k != key@ && store_has(old_objects, k) implies #[trigger] store_val(
                self.store.objects(),
                k,
            ) == store_val(old_objects, k) by {
                assert(self.store.val(k) == store_val(old_objects, k));
            }
            assert forall|k: Seq<char>| k != key@ implies (#[trigger] store_has(
                self.store.objects(),
                k,
            ) <==> store_has(old_objects, k)) by {
                assert(self.store.has(k) <==> store_has(old_objects, k));
            }
            if old(self).inv() {
                lemma_preserve_backed(
                    old_objects,
                    self.store.objects(),
                    self.index.entries_view(),
                    key@,
                );
            }
        }
        Ok(())
    }

    /// Looks a snapshot up by any substring of its store key: the first
    /// listed match. Fails with `NotFound` exactly when nothing matches.
    #[verifier::loop_isolation(false)]
    pub fn get_snapshot(&self, id: &str) -> (r: Result<Snapshot, Error>)
        requires
            self.maps_wf(),
        ensures
            r matches Ok(s) ==> snap_wf(s) && exists|k: Seq<char>|
                #![auto]
                store_has(self.objects(), k) && key_in_dir(k, "snapshots"@) && contains_seq(
                    bytes_of_str(k),
                    bytes_of_str(id@),
                ) && store_val(self.objects(), k) == snapshot_json(s),
            r matches Err(e) ==> e == Error::NotFound || e == Error::Parse || e == Error::Store,
            r matches Err(e) && e == Error::NotFound ==> forall|k: Seq<char>|
                store_has(self.objects(), k) && key_in_dir(k, "snapshots"@) ==> !(contains_seq(
                    bytes_of_str(k),
                    bytes_of_str(id@),
                ) && crate::strutil::occurs_at(
                    #[trigger] bytes_of_str(k),
                    bytes_of_str(".json"@),
                    bytes_of_str(k).len() - bytes_of_str(".json"@).len(),
                )),
            ((exists|k: Seq<char>|
                #![auto]
                store_has(self.objects(), k) && key_in_dir(k, "snapshots"@) && contains_seq(
                    bytes_of_str(k),
                    bytes_of_str(id@),
                ) && crate::strutil::occurs_at(
                    bytes_of_str(k),
                    bytes_of_str(".json"@),
                    bytes_of_str(k).len() - bytes_of_str(".json"@).len(),
                )) && (forall|k: Seq<char>|
                store_has(self.objects(), k) && key_in_dir(k, "snapshots"@) && contains_seq(
                    #[trigger] bytes_of_str(k),
                    bytes_of_str(id@),
                ) && crate::strutil::occurs_at(
                    bytes_of_str(k),
                    bytes_of_str(".json"@),
                    bytes_of_str(k).len() - bytes_of_str(".json"@).len(),
                ) ==> crate::snapshot::canonical_snap_doc(store_val(self.objects(), k))))
                ==> r is Ok,
    {
        let keys = self.store.list("snapshots");
        let idb = crate::strutil::str_bytes(id);
        let suffix = crate::strutil::str_bytes(".json");
        let mut i: usize = 0;
        while i < keys.len()
            invariant
                i <= keys@.len(),
                idb@ == bytes_of_str(id@),
                suffix@ == bytes_of_str(".json"@),
                forall|j: int|
                    0 <= j < i ==> !(contains_seq(
                        bytes_of_str((#[trigger] keys@[j])@),
                        bytes_of_str(id@),
                    ) && crate::strutil::occurs_at(
                        bytes_of_str(keys@[j]@),
                        bytes_of_str(".json"@),
                        bytes_of_str(keys@[j]@).len() - bytes_of_str(".json"@).len(),
                    )),
            decreases keys@.len() - i,
        {
            let key = &keys[i];
            let kb = key.as_str().as_bytes();
            if crate::strutil::bytes_contains(kb, idb.as_slice()) && crate::strutil::bytes_ends_with(
                kb,
                suffix.as_slice(),
            ) {
                let data = match self.store.read(key.as_str()) {
                    Some(d) => d,
                    None => {
                        return Err(Error::Store);
                    },
                };
                let out = Snapshot::from_bytes(data.as_slice());
                proof {
                    assert(store_has(self.objects(), key@) && key_in_dir(key@, "snapshots"@));
                    assert(data@ == store_val(self.objects(), key@));
                    if crate::snapshot::canonical_snap_doc(store_val(self.objects(), key@)) {
                        let s0 = choose|s0: Snapshot|
                            snap_wf(s0) && store_val(self.objects(), key@) == snapshot_json(s0);
                        assert(data@ == snapshot_json(s0) && snap_wf(s0));
                        assert(out is Ok);
                    }
                }
                return out;
            }
            i += 1;
        }
        proof {
            assert forall|k: Seq<char>|
                store_has(self.objects(), k) && key_in_dir(k, "snapshots"@) implies !(contains_seq(
                #[trigger] bytes_of_str(k),
                bytes_of_str(id@),
            ) && crate::strutil::occurs_at(
                bytes_of_str(k),
                bytes_of_str(".json"@),
                bytes_of_str(k).len() - bytes_of_str(".json"@).len(),
            )) by {
                assert(self.store.has(k));
                assert(exists|j: int| 0 <= j < keys@.len() && (#[trigger] keys@[j])@ == k);
                let j = choose|j: int| 0 <= j < keys@.len() && (#[trigger] keys@[j])@ == k;
                assert(bytes_of_str(keys@[j]@) == bytes_of_str(k));
            }
        }
        Err(Error::NotFound)
    }

    /// Reads and parses every stored snapshot, newest first by timestamp.
    #[verifier::loop_isolation(false)]
    #[verifier::rlimit(100)]
    pub fn list_snapshots(&self) -> (r: Result<Vec<Snapshot>, Error>)
        requires
            self.maps_wf(),
        ensures
            r matches Ok(v) ==> (forall|i: int| 0 <= i < v@.len() ==> snap_wf(#[trigger] v@[i]))
                && (forall|i: int, j: int|
                0 <= i < j < v@.len() ==> (#[trigger] v@[i]).timestamp.time_key()
                    >= (#[trigger] v@[j]).timestamp.time_key()),
            r matches Err(e) ==> e == Error::Parse || e == Error::Store,
            (forall|k: Seq<char>|
                store_has(self.objects(), k) && key_in_dir(k, "snapshots"@)
                    && crate::strutil::occurs_at(
                    #[trigger] bytes_of_str(k),
                    bytes_of_str(".json"@),
                    bytes_of_str(k).len() - bytes_of_str(".json"@).len(),
                ) ==> crate::snapshot::canonical_snap_doc(store_val(self.objects(), k)))
                ==> r is Ok,
    {
        let keys = self.store.list("snapshots");
        let suffix = crate::strutil::str_bytes(".json");
        let mut found: Vec<Snapshot> = Vec::new();
        let mut i: usize = 0;
        while i < keys.len()
            invariant
                i <= keys@.len(),
                forall|m: int| 0 <= m < found@.len() ==> snap_wf(#[trigger] found@[m]),
            decreases keys@.len() - i,
        {
            let key = &keys[i];
            let kb = key.as_str().as_bytes();
            if crate::strutil::bytes_ends_with(kb, suffix.as_slice()) {
                let data = match self.store.read(key.as_str()) {
                    Some(d) => d,
                    None => {
                        proof {
                            assert(false);
                        }
                        return Err(Error::Store);
                    },
                };
                let snap = match Snapshot::from_bytes(data.as_slice()) {
                    Ok(s) => s,
                    Err(e) => {
                        proof {
                            assert(store_has(self.objects(), key@) && key_in_dir(
                                key@,
                                "snapshots"@,
                            ));
                            assert(data@ == store_val(self.objects(), key@));
                            if crate::snapshot::canonical_snap_doc(
                                store_val(self.objects(), key@),
                            ) {
                                let s0 = choose|s0: Snapshot|
                                    snap_wf(s0) && store_val(self.objects(), key@)
                                        == snapshot_json(s0);
                                assert(data@ == snapshot_json(s0) && snap_wf(s0));
                                assert(false);
                            }
                        }
                        return Err(e);
                    },
                };
                found.push(snap);
            }
            i += 1;
        }
        Ok(sort_newest_first(found))
    }

    /// The newest snapshot matching tenant, service and user, if any:
    /// the first match of the newest-first listing.
    #[verifier::loop_isolation(false)]
    pub fn find_latest_snapshot(
        &self,
        tenant: &str,
        service: Service,
        user: Option<&str>,
    ) -> (r: Result<Option<Snapshot>, Error>)
        requires
            self.maps_wf(),
        ensures
            r matches Ok(Some(s)) ==> snap_wf(s) && s.tenant@ == tenant@ && s.service == service
                && (match (s.user, user) {
                (Option::None, Option::None) => true,
                (Option::Some(a), Option::Some(b)) => a@ == b@,
                _ => false,
            }),
            r matches Err(e) ==> e == Error::Parse || e == Error::Store,
            (forall|k: Seq<char>|
                store_has(self.objects(), k) && key_in_dir(k, "snapshots"@)
                    && crate::strutil::occurs_at(
                    #[trigger] bytes_of_str(k),
                    bytes_of_str(".json"@),
                    bytes_of_str(k).len() - bytes_of_str(".json"@).len(),
                ) ==> crate::snapshot::canonical_snap_doc(store_val(self.objects(), k)))
                ==> r is Ok,
    {
        let mut snapshots = match self.list_snapshots() {
            Ok(v) => v,
            Err(e) => {
                return Err(e);
            },
        };
        let mut i: usize = 0;
        while i < snapshots.len()
            invariant
                i <= snapshots@.len(),
                forall|m: int| 0 <= m < snapshots@.len() ==> snap_wf(#[trigger] snapshots@[m]),
            decreases snapshots@.len() - i,
        {
            let s = &snapshots[i];
            let tenant_eq = crate::strutil::str_eq(s.tenant.as_str(), tenant);
            let service_eq = matches!(
                (s.service, service),
                (Service::OneDrive, Service::OneDrive) | (Service::Exchange, Service::Exchange)
                | (Service::SharePoint, Service::SharePoint) | (Service::Teams, Service::Teams)
            );
            let user_eq = match (&s.user, user) {
                (None, None) => true,
                (Some(a), Some(b)) => crate::strutil::str_eq(a.as_str(), b),
                _ => false,
            };
            if tenant_eq && service_eq && user_eq {
                let out = snapshots.swap_remove(i);
                return Ok(Some(out));
            }
            i += 1;
        }
        Ok(None)
    }
}

} // verus!

verus! {

/// Orders snapshots newest first by timestamp.
#[verifier::loop_isolation(false)]
#[verifier::rlimit(100)]
fn sort_newest_first(v: Vec<Snapshot>) -> (r: Vec<Snapshot>)
    requires
        forall|m: int| 0 <= m < v@.len() ==> snap_wf(#[trigger] v@[m]),
    ensures
        r@.len() == v@.len(),
        forall|m: int| 0 <= m < r@.len() ==> snap_wf(#[trigger] r@[m]),
        forall|a: int, b: int|
            0 <= a < b < r@.len() ==> (#[trigger] r@[a]).timestamp.time_key() >= (#[trigger] r@[
                b
            ]).timestamp.time_key(),
{
    let mut found = v;
    let ghost total = found@.len();
    let mut sorted: Vec<Snapshot> = Vec::new();
    while found.len() > 0
        invariant
            sorted@.len() + found@.len() == total,
            forall|m: int| 0 <= m < found@.len() ==> snap_wf(#[trigger] found@[m]),
            forall|m: int| 0 <= m < sorted@.len() ==> snap_wf(#[trigger] sorted@[m]),
            forall|a: int, b: int|
                0 <= a < b < sorted@.len() ==> (#[trigger] sorted@[a]).timestamp.time_key()
                    >= (#[trigger] sorted@[b]).timestamp.time_key(),
            forall|a: int, b: int|
                0 <= a < sorted@.len() && 0 <= b < found@.len()
                    ==> (#[trigger] sorted@[a]).timestamp.time_key() >= (#[trigger] found@[
                    b
                ]).timestamp.time_key(),
        decreases found@.len(),
    {
        let mut best: usize = 0;
        let mut m: usize = 1;
        while m < found.len()
            invariant
                best < found@.len(),
                m <= found@.len(),
                forall|b: int|
                    0 <= b < m ==> found@[best as int].timestamp.time_key()
                        >= (#[trigger] found@[b]).timestamp.time_key(),
                forall|mm: int| 0 <= mm < found@.len() ==> snap_wf(#[trigger] found@[mm]),
            decreases found@.len() - m,
        {
            if found[m].timestamp.key_u64() > found[best].timestamp.key_u64() {
                best = m;
            }
            m += 1;
        }
        let ghost pre_found = found@;
        let picked = found.swap_remove(best);
        sorted.push(picked);
        proof {
            assert forall|b: int|
                0 <= b < found@.len() implies snap_wf(#[trigger] found@[b])
                && picked.timestamp.time_key() >= found@[b].timestamp.time_key() by {
                let src: int = if b == best { pre_found.len() - 1 } else { b };
                assert(found@[b] == pre_found[src]);
            }
        }
    }
    sorted
}

} // verus!

verus! {

/// Writing one key that is no pack key leaves every index entry backed.
proof fn lemma_preserve_backed(
    old_objects: Seq<(Seq<char>, Seq<u8>)>,
    new_objects: Seq<(Seq<char>, Seq<u8>)>,
    idx: Seq<([u8; 32], BlobLocation)>,
    key: Seq<char>,
)
    requires
        forall|k: Seq<char>| k != key ==> (#[trigger] store_has(new_objects, k) <==> store_has(
            old_objects,
            k,
        )),
        forall|k: Seq<char>|
            k != key && store_has(old_objects, k) ==> #[trigger] store_val(new_objects, k)
                == store_val(old_objects, k),
        forall|i: int| 0 <= i < idx.len() ==> entry_backed(old_objects, #[trigger] idx[i]),
        forall|id: Seq<char>| #[trigger] pack_key(id) != key,
    ensures
        forall|i: int| 0 <= i < idx.len() ==> entry_backed(new_objects, #[trigger] idx[i]),
{
    assert forall|i: int| 0 <= i < idx.len() implies entry_backed(
        new_objects,
        #[trigger] idx[i],
    ) by {
        let e = idx[i];
        assert(entry_backed(old_objects, e));
        assert(pack_key(e.1.pack_id@) != key);
        assert(store_has(new_objects, pack_key(e.1.pack_id@)));
        assert(store_val(new_objects, pack_key(e.1.pack_id@)) == store_val(
            old_objects,
            pack_key(e.1.pack_id@),
        ));
    }
}

} // verus!

// === Integrity checking and the repository laws ============================

verus! {

impl Repository {
    /// Opens an existing repository: reads and checks the configuration,
    /// then loads the persisted index if one stands. It succeeds on every
    /// store whose configuration is the canonical version-one text and
    /// whose index, when present, is a canonical unique-keyed index.
    pub fn open(store: ObjectStore) -> (r: Result<Repository, Error>)
        requires
            store.wf(),
        ensures
            r matches Ok(repo) ==> repo.maps_wf() && repo.objects() == store.objects() && (
            store_has(store.objects(), "index.json"@) ==> crate::index::index_json(
                repo.index_view(),
            ) == store_val(store.objects(), "index.json"@)) && (!store_has(
                store.objects(),
                "index.json"@,
            ) ==> repo.index_view().len() == 0),
            store_has(store.objects(), "config.json"@) && (exists|c: RepoConfig|
                store_val(store.objects(), "config.json"@) == #[trigger] config_json(c)
                    && c.version == 1) && (store_has(store.objects(), "index.json"@)
                ==> exists|s: Seq<([u8; 32], crate::index::BlobLocation)>|
                crate::index::keys_unique(s) && store_val(store.objects(), "index.json"@)
                    == #[trigger] crate::index::index_json(s)) ==> r is Ok,
            forall|s: Seq<([u8; 32], crate::index::BlobLocation)>|
                r is Ok && store_has(store.objects(), "index.json"@) && crate::index::keys_unique(
                    s,
                ) && store_val(store.objects(), "index.json"@) == #[trigger]
                    crate::index::index_json(s) ==> crate::index::entries_match(
                    (r ->Ok_0).index_view(),
                    s,
                ),
            r matches Err(e) && e == Error::NotARepository <==> !store_has(
                store.objects(),
                "config.json"@,
            ),
            forall|c: RepoConfig|
                store_has(store.objects(), "config.json"@) && store_val(
                    store.objects(),
                    "config.json"@,
                ) == #[trigger] config_json(c) && c.version != 1 ==> r == Err::<
                    Repository,
                    Error,
                >(Error::UnsupportedVersion(c.version)),
            r matches Err(Error::UnsupportedVersion(v)) ==> exists|c: RepoConfig|
                store_val(store.objects(), "config.json"@) == #[trigger] config_json(c)
                    && c.version == v && v != 1,
            r matches Err(e) ==> (e == Error::NotARepository || e == Error::Parse || e matches
                Error::UnsupportedVersion(_)),
    {
        let cfg_bytes = match store.read("config.json") {
            Some(b) => b,
            None => {
                return Err(Error::NotARepository);
            },
        };
        let config = match parse_config(&cfg_bytes) {
            Some(c) => c,
            None => {
                proof {
                    assert forall|c: RepoConfig|
                        store_val(store.objects(), "config.json"@) == config_json(c)
                        implies false by {
                        assert(cfg_bytes@ == config_json(c));
                    }
                }
                return Err(Error::Parse);
            },
        };
        if config.version != 1 {
            proof {
                assert(config_json(config) == cfg_bytes@);
                assert forall|c: RepoConfig|
                    store_has(store.objects(), "config.json"@) && store_val(
                        store.objects(),
                        "config.json"@,
                    ) == config_json(c) && c.version != 1 implies config.version == c.version by {
                    assert(cfg_bytes@ == config_json(c));
                }
            }
            return Err(Error::UnsupportedVersion(config.version));
        }
        let index = if store.has_key("index.json") {
            let data = match store.read("index.json") {
                Some(b) => b,
                None => {
                    return Err(Error::Parse);
                },
            };
            match Index::from_bytes(data.as_slice()) {
                Ok(idx) => idx,
                Err(e) => {
                    proof {
                        assert forall|s: Seq<([u8; 32], crate::index::BlobLocation)>|
                            crate::index::keys_unique(s) && store_val(
                                store.objects(),
                                "index.json"@,
                            ) == crate::index::index_json(s) implies false by {
                            assert(data@ == crate::index::index_json(s));
                        }
                    }
                    return Err(e);
                },
            }
        } else {
            Index::new()
        };
        let repo = Repository { store, index };
        proof {
            assert forall|s: Seq<([u8; 32], crate::index::BlobLocation)>|
                store_has(store.objects(), "index.json"@) && crate::index::keys_unique(s)
                    && store_val(store.objects(), "index.json"@) == crate::index::index_json(s)
                implies crate::index::entries_match(repo.index_view(), s) by {
            }
        }
        Ok(repo)
    }

    /// Checks that every indexed blob's pack exists, and counts packs,
    /// blobs and snapshots. The error list is empty exactly when every
    /// index entry's pack is present.
    #[verifier::loop_isolation(false)]
    #[verifier::rlimit(100)]
    pub fn verify(&self) -> (r: Result<VerifyResult, Error>)
        requires
            self.maps_wf(),
        ensures
            r matches Ok(v) ==> v.blobs_checked == self.index_view().len() && ((v.errors@.len()
                == 0) <==> (forall|i: int|
                0 <= i < self.index_view().len() ==> store_has(
                    self.objects(),
                    pack_key((#[trigger] self.index_view()[i]).1.pack_id@),
                ))),
            r matches Err(e) ==> e == Error::Parse || e == Error::Store,
            (forall|k: Seq<char>|
                store_has(self.objects(), k) && key_in_dir(k, "snapshots"@)
                    && crate::strutil::occurs_at(
                    #[trigger] bytes_of_str(k),
                    bytes_of_str(".json"@),
                    bytes_of_str(k).len() - bytes_of_str(".json"@).len(),
                ) ==> crate::snapshot::canonical_snap_doc(store_val(self.objects(), k)))
                ==> r is Ok,
    {
        let pack_keys = self.store.list("packs");
        let packs_checked = pack_keys.len() as u64;
        let mut errors: Vec<String> = Vec::new();
        let n = self.index.len();
        let mut i: usize = 0;
        while i < n
            invariant
                i <= n,
                n == self.index_view().len(),
                (errors@.len() == 0) <==> (forall|j: int|
                    0 <= j < i ==> store_has(
                        self.objects(),
                        pack_key((#[trigger] self.index_view()[j]).1.pack_id@),
                    )),
            decreases n - i,
        {
            let e = self.index.entry_at(i);
            let pkey = crate::strutil::concat_str("packs/", e.1.pack_id.as_str());
            let ghost pre_errors = errors@;
            if !self.store.has_key(pkey.as_str()) {
                let hex = crate::hexfmt::hex_string(e.0.as_slice());
                let msg = crate::strutil::concat_str("blob ", hex.as_str());
                let msg = crate::strutil::concat_str(msg.as_str(), " references missing pack ");
                let msg = crate::strutil::concat_str(msg.as_str(), e.1.pack_id.as_str());
                errors.push(msg);
                proof {
                    assert(!store_has(
                        self.objects(),
                        pack_key(self.index_view()[i as int].1.pack_id@),
                    ));
                }
            } else {
                proof {
                    assert(store_has(
                        self.objects(),
                        pack_key(self.index_view()[i as int].1.pack_id@),
                    ));
                }
            }
            i += 1;
        }
        let snapshots = match self.list_snapshots() {
            Ok(v) => v,
            Err(e) => {
                return Err(e);
            },
        };
        Ok(
            VerifyResult {
                packs_checked,
                blobs_checked: n as u64,
                snapshots_checked: snapshots.len() as u64,
                errors,
            },
        )
    }
}

/// One flush adds at most `index.json` and one pack key: the frame carries
/// from before the flush to after it.
proof fn lemma_frame_step(
    old_objects: Seq<(Seq<char>, Seq<u8>)>,
    pre: Seq<(Seq<char>, Seq<u8>)>,
    post: Seq<(Seq<char>, Seq<u8>)>,
    id: Seq<char>,
)
    requires
        forall|k: Seq<char>|
            #[trigger] store_has(pre, k) ==> store_has(old_objects, k) || k == "index.json"@
                || key_in_dir(k, "packs"@),
        forall|k: Seq<char>|
            #[trigger] store_has(post, k) ==> store_has(pre, k) || k == "index.json"@ || k
                == pack_key(id),
    ensures
        forall|k: Seq<char>|
            #[trigger] store_has(post, k) ==> store_has(old_objects, k) || k == "index.json"@
                || key_in_dir(k, "packs"@),
{
    assert forall|k: Seq<char>|
        #[trigger] store_has(post, k) implies store_has(old_objects, k) || k == "index.json"@
        || key_in_dir(k, "packs"@) by {
        if k == pack_key(id) {
            lemma_pack_key_in_dir(id);
        }
    }
}

/// Every index entry of a consistent repository is backed by the store:
/// its pack exists and the recorded slice hashes back to the entry's key.
pub proof fn lemma_entries_backed(r: &Repository)
    requires
        r.inv(),
    ensures
        forall|i: int|
            0 <= i < r.index_view().len() ==> entry_backed(
                r.objects(),
                #[trigger] r.index_view()[i],
            ),
{
}

/// Under the invariant every indexed pack exists, so an integrity check of
/// a consistent repository reports an empty error list.
pub proof fn lemma_verify_clean(r: &Repository)
    requires
        r.inv(),
    ensures
        forall|i: int|
            0 <= i < r.index_view().len() ==> store_has(
                r.objects(),
                pack_key((#[trigger] r.index_view()[i]).1.pack_id@),
            ),
{
}

/// Two chunk-reference vectors for the same bytes agree everywhere:
/// storing the same data again returns equal references.
pub proof fn lemma_refs_deterministic(a: Seq<ChunkRef>, b: Seq<ChunkRef>, data: Seq<u8>)
    requires
        is_ref_chunking(a, data),
        is_ref_chunking(b, data),
    ensures
        a.len() == b.len(),
        forall|i: int|
            0 <= i < a.len() ==> (#[trigger] a[i]).offset == b[i].offset && a[i].length == b[
                i
            ].length && a[i].hash@ == b[i].hash@,
{
}

/// Reading stored references restores the stored bytes: in a consistent
/// repository whose index holds every reference, and as long as no two
/// distinct byte runs share a content hash, the concatenated blobs from
/// reference `k` on equal the input from the `k`-th cut point on.
pub proof fn lemma_read_restores(repo: &Repository, data: Seq<u8>, refs: Seq<ChunkRef>, k: int)
    requires
        repo.inv(),
        is_ref_chunking(refs, data),
        crate::chunk::seq_sum(crate::chunk::cdc_lens(data)) == data.len(),
        forall|i: int|
            0 <= i < refs.len() ==> seq_contains_hash(
                repo.index_view(),
                (#[trigger] refs[i]).hash@,
            ),
        forall|x: Seq<u8>, y: Seq<u8>|
            #[trigger] blake3_of(x) == #[trigger] blake3_of(y) ==> x == y,
        0 <= k <= refs.len(),
    ensures
        blobs_cat(repo.objects(), repo.index_view(), refs, k) == data.skip(
            crate::chunk::seq_sum(crate::chunk::cdc_lens(data).take(k)),
        ),
    decreases refs.len() - k,
{
    let lens = crate::chunk::cdc_lens(data);
    crate::chunk::lemma_sum_nonneg(lens.take(k));
    crate::chunk::lemma_sum_split(lens, k);
    crate::chunk::lemma_sum_nonneg(lens.skip(k));
    let off = crate::chunk::seq_sum(lens.take(k));
    if k == refs.len() {
        assert(lens.take(k) =~= lens);
        assert(data.skip(off) =~= Seq::<u8>::empty());
    } else {
        lemma_read_restores(repo, data, refs, k + 1);
        assert(lens.take(k + 1) =~= lens.take(k).push(lens[k]));
        crate::chunk::lemma_sum_snoc(lens.take(k), lens[k]);
        let off2 = crate::chunk::seq_sum(lens.take(k + 1));
        assert(lens.skip(k)[0] == lens[k]);
        assert(lens.skip(k).len() > 0);
        assert(lens.skip(k).skip(1) =~= lens.skip(k + 1));
        crate::chunk::lemma_sum_nonneg(lens.skip(k + 1));
        assert(crate::chunk::seq_sum(lens.skip(k)) == lens[k] + crate::chunk::seq_sum(
            lens.skip(k + 1),
        ));
        assert(0 <= off && off2 <= data.len());
        let h = refs[k].hash@;
        assert(seq_contains_hash(repo.index_view(), h));
        let m = choose|m: int|
            0 <= m < repo.index_view().len() && repo.index_view()[m].0@ == h;
        crate::index::lemma_seq_loc_at(repo.index_view(), m);
        assert(entry_backed(repo.objects(), repo.index_view()[m]));
        let loc = repo.index_view()[m].1;
        assert(seq_loc_of(repo.index_view(), h) == loc);
        let seg = data.subrange(off, off2);
        assert(refs[k].hash@ == blake3_of(seg));
        assert(blake3_of(blob_at(repo.objects(), loc)) == h);
        assert(blob_at(repo.objects(), loc) == seg);
        crate::jsonfmt::lemma_skip_split(data, off, off2);
        assert(blobs_cat(repo.objects(), repo.index_view(), refs, k) == blob_at(
            repo.objects(),
            loc,
        ) + blobs_cat(repo.objects(), repo.index_view(), refs, k + 1));
    }
}

} // verus!
