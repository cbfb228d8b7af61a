//! Snapshot records: the durable description of one backup run, with its
//! logical tree, statistics and continuation tokens, serialized as JSON.

use vstd::prelude::*;

use crate::chunk::ChunkRef;
use crate::errors::Error;
use crate::jsonfmt::dec_u64;
use crate::jsonfmt::jstr;
use crate::jsonfmt::nums_json;
use crate::strutil::bytes_of_str;
use crate::timefmt::ts_text;
use crate::timefmt::Timestamp;

verus! {

/// The service a snapshot was taken from.
#[derive(Debug, Clone, Copy, PartialEq, Eq)]
pub enum Service {
    OneDrive,
    Exchange,
    SharePoint,
    Teams,
}

/// The lowercase tag a service is serialized as.
pub open spec fn service_tag(s: Service) -> Seq<char> {
    match s {
        Service::OneDrive => "onedrive"@,
        Service::Exchange => "exchange"@,
        Service::SharePoint => "sharepoint"@,
        Service::Teams => "teams"@,
    }
}

impl Service {
    /// The lowercase tag, as text.
    pub fn tag(&self) -> (r: &'static str)
        ensures
            r@ == service_tag(*self),
    {
        match self {
            Service::OneDrive => "onedrive",
            Service::Exchange => "exchange",
            Service::SharePoint => "sharepoint",
            Service::Teams => "teams",
        }
    }

    /// The service a tag names, compared without ASCII case.
    pub fn from_tag(s: &str) -> (r: Option<Service>)
        ensures
            r == Some(Service::OneDrive) <==> crate::strutil::eq_ignore_case_seq(
                vstd::string::StringSliceAdditionalSpecFns::spec_bytes(s),
                vstd::string::StringSliceAdditionalSpecFns::spec_bytes("onedrive"),
            ),
            r == Some(Service::Exchange) <==> !crate::strutil::eq_ignore_case_seq(
                vstd::string::StringSliceAdditionalSpecFns::spec_bytes(s),
                vstd::string::StringSliceAdditionalSpecFns::spec_bytes("onedrive"),
            ) && crate::strutil::eq_ignore_case_seq(
                vstd::string::StringSliceAdditionalSpecFns::spec_bytes(s),
                vstd::string::StringSliceAdditionalSpecFns::spec_bytes("exchange"),
            ),
            r matches Some(v) && v == Service::SharePoint ==> crate::strutil::eq_ignore_case_seq(
                vstd::string::StringSliceAdditionalSpecFns::spec_bytes(s),
                vstd::string::StringSliceAdditionalSpecFns::spec_bytes("sharepoint"),
            ),
            r matches Some(v) && v == Service::Teams ==> crate::strutil::eq_ignore_case_seq(
                vstd::string::StringSliceAdditionalSpecFns::spec_bytes(s),
                vstd::string::StringSliceAdditionalSpecFns::spec_bytes("teams"),
            ),
            r is None <==> !crate::strutil::eq_ignore_case_seq(
                vstd::string::StringSliceAdditionalSpecFns::spec_bytes(s),
                vstd::string::StringSliceAdditionalSpecFns::spec_bytes("onedrive"),
            ) && !crate::strutil::eq_ignore_case_seq(
                vstd::string::StringSliceAdditionalSpecFns::spec_bytes(s),
                vstd::string::StringSliceAdditionalSpecFns::spec_bytes("exchange"),
            ) && !crate::strutil::eq_ignore_case_seq(
                vstd::string::StringSliceAdditionalSpecFns::spec_bytes(s),
                vstd::string::StringSliceAdditionalSpecFns::spec_bytes("sharepoint"),
            ) && !crate::strutil::eq_ignore_case_seq(
                vstd::string::StringSliceAdditionalSpecFns::spec_bytes(s),
                vstd::string::StringSliceAdditionalSpecFns::spec_bytes("teams"),
            ),
    {
        if crate::strutil::str_eq_ignore_ascii_case(s, "onedrive") {
            Some(Service::OneDrive)
        } else if crate::strutil::str_eq_ignore_ascii_case(s, "exchange") {
            Some(Service::Exchange)
        } else if crate::strutil::str_eq_ignore_ascii_case(s, "sharepoint") {
            Some(Service::SharePoint)
        } else if crate::strutil::str_eq_ignore_ascii_case(s, "teams") {
            Some(Service::Teams)
        } else {
            None
        }
    }
}

/// What kind of logical item a tree node stands for.
#[derive(Debug, Clone, Copy, PartialEq, Eq)]
pub enum NodeType {
    File,
    Directory,
    Mail,
    Calendar,
    Contact,
    Message,
}

/// The lowercase tag a node type is serialized as.
pub open spec fn node_type_tag(t: NodeType) -> Seq<char> {
    match t {
        NodeType::File => "file"@,
        NodeType::Directory => "directory"@,
        NodeType::Mail => "mail"@,
        NodeType::Calendar => "calendar"@,
        NodeType::Contact => "contact"@,
        NodeType::Message => "message"@,
    }
}

impl NodeType {
    /// The lowercase tag, as text.
    pub fn tag(&self) -> (r: &'static str)
        ensures
            r@ == node_type_tag(*self),
    {
        match self {
            NodeType::File => "file",
            NodeType::Directory => "directory",
            NodeType::Mail => "mail",
            NodeType::Calendar => "calendar",
            NodeType::Contact => "contact",
            NodeType::Message => "message",
        }
    }
}

/// Aggregate counters for one backup run.
#[derive(Debug, Clone, Default, PartialEq, Eq)]
pub struct BackupStats {
    pub total_items: u64,
    pub new_items: u64,
    pub unchanged_items: u64,
    pub total_bytes: u64,
    pub new_bytes: u64,
    pub deduplicated_bytes: u64,
    pub duration_secs: u64,
}

/// One logical item in a snapshot.
#[derive(Debug, Clone)]
pub struct TreeNode {
    pub path: String,
    pub node_type: NodeType,
    pub size: u64,
    pub modified: Option<Timestamp>,
    pub chunks: Vec<ChunkRef>,
    pub metadata: Vec<(String, String)>,
}

/// The ordered items of a snapshot.
#[derive(Debug, Clone)]
pub struct Tree {
    pub nodes: Vec<TreeNode>,
}

/// A durable record of one backup run.
#[derive(Debug, Clone)]
pub struct Snapshot {
    pub id: String,
    pub timestamp: Timestamp,
    pub tenant: String,
    pub service: Service,
    pub user: Option<String>,
    pub parent: Option<String>,
    pub tree: Tree,
    pub delta_tokens: Vec<(String, String)>,
    pub stats: BackupStats,
}

// === Emission ==============================================================

/// `null`, as bytes.
pub open spec fn null_json() -> Seq<u8> {
    seq![110u8, 117u8, 108u8, 108u8]
}

/// An optional string: `null` or a JSON string.
pub open spec fn opt_str_json(o: Option<String>) -> Seq<u8> {
    match o {
        Option::None => null_json(),
        Option::Some(s) => jstr(s@),
    }
}

/// A quoted timestamp.
pub open spec fn ts_quoted(t: Timestamp) -> Seq<u8> {
    seq![34u8] + ts_text(t) + seq![34u8]
}

/// An optional timestamp: `null` or a quoted timestamp.
pub open spec fn opt_ts_json(o: Option<Timestamp>) -> Seq<u8> {
    match o {
        Option::None => null_json(),
        Option::Some(t) => ts_quoted(t),
    }
}

/// One `"key":"value"` member.
pub open spec fn pair_json(p: (String, String)) -> Seq<u8> {
    jstr(p.0@) + (seq![58u8] + jstr(p.1@))
}

/// The members from position `k` on, comma-separated.
pub open spec fn pairs_json_from(s: Seq<(String, String)>, k: int) -> Seq<u8>
    decreases s.len() - k,
{
    if k < 0 || k >= s.len() {
        Seq::empty()
    } else {
        pair_json(s[k]) + (if k + 1 < s.len() {
            seq![44u8] + pairs_json_from(s, k + 1)
        } else {
            Seq::empty()
        })
    }
}

/// A whole string-to-string object.
pub open spec fn pairs_obj_json(s: Seq<(String, String)>) -> Seq<u8> {
    seq![123u8] + (pairs_json_from(s, 0) + seq![125u8])
}

/// One chunk reference object.
pub open spec fn chunkref_json(c: ChunkRef) -> Seq<u8> {
    seq![123u8] + (bytes_of_str("\"hash\":["@) + (nums_json(c.hash@, 0) + (seq![93u8, 44u8] + (
    bytes_of_str("\"length\":"@) + (dec_u64(c.length as nat) + (seq![44u8] + (bytes_of_str(
        "\"offset\":"@,
    ) + (dec_u64(c.offset as nat) + seq![125u8]))))))))
}

/// The chunk references from position `k` on.
pub open spec fn chunks_json_from(s: Seq<ChunkRef>, k: int) -> Seq<u8>
    decreases s.len() - k,
{
    if k < 0 || k >= s.len() {
        Seq::empty()
    } else {
        chunkref_json(s[k]) + (if k + 1 < s.len() {
            seq![44u8] + chunks_json_from(s, k + 1)
        } else {
            Seq::empty()
        })
    }
}

/// One tree node object.
pub open spec fn node_json(n: TreeNode) -> Seq<u8> {
    bytes_of_str("{\"path\":"@) + (jstr(n.path@) + (bytes_of_str(",\"node_type\":"@) + (jstr(
        node_type_tag(n.node_type),
    ) + (bytes_of_str(",\"size\":"@) + (dec_u64(n.size as nat) + (seq![44u8] + (bytes_of_str(
        "\"modified\":"@,
    ) + (opt_ts_json(n.modified) + (bytes_of_str(",\"chunks\":["@) + (chunks_json_from(
        n.chunks@,
        0,
    ) + (seq![93u8] + (bytes_of_str(",\"metadata\":"@) + (pairs_obj_json(n.metadata@)
        + seq![125u8])))))))))))))
}

/// The tree nodes from position `k` on.
pub open spec fn nodes_json_from(s: Seq<TreeNode>, k: int) -> Seq<u8>
    decreases s.len() - k,
{
    if k < 0 || k >= s.len() {
        Seq::empty()
    } else {
        node_json(s[k]) + (if k + 1 < s.len() {
            seq![44u8] + nodes_json_from(s, k + 1)
        } else {
            Seq::empty()
        })
    }
}

/// The statistics object.
pub open spec fn stats_json(st: BackupStats) -> Seq<u8> {
    bytes_of_str("{\"total_items\":"@) + dec_u64(st.total_items as nat) + seq![44u8]
        + bytes_of_str("\"new_items\":"@) + dec_u64(st.new_items as nat) + seq![44u8]
        + bytes_of_str("\"unchanged_items\":"@) + dec_u64(st.unchanged_items as nat) + seq![44u8]
        + bytes_of_str("\"total_bytes\":"@) + dec_u64(st.total_bytes as nat) + seq![44u8]
        + bytes_of_str("\"new_bytes\":"@) + dec_u64(st.new_bytes as nat) + seq![44u8]
        + bytes_of_str("\"deduplicated_bytes\":"@) + dec_u64(st.deduplicated_bytes as nat)
        + seq![44u8] + bytes_of_str("\"duration_secs\":"@) + dec_u64(st.duration_secs as nat)
        + seq![125u8]
}

/// The whole snapshot document.
#[verifier::opaque]
pub open spec fn snapshot_json(s: Snapshot) -> Seq<u8> {
    bytes_of_str("{\"id\":"@) + jstr(s.id@) + bytes_of_str(",\"timestamp\":"@) + ts_quoted(
        s.timestamp,
    ) + bytes_of_str(",\"tenant\":"@) + jstr(s.tenant@) + bytes_of_str(",\"service\":"@) + jstr(
        service_tag(s.service),
    ) + bytes_of_str(",\"user\":"@) + opt_str_json(s.user) + bytes_of_str(",\"parent\":"@)
        + opt_str_json(s.parent) + bytes_of_str(",\"tree\":{\"nodes\":["@) + nodes_json_from(
        s.tree.nodes@,
        0,
    ) + seq![93u8] + bytes_of_str(",\"delta_tokens\":"@) + pairs_obj_json(s.delta_tokens@)
        + bytes_of_str(",\"stats\":"@) + stats_json(s.stats) + seq![125u8]
}

/// Some representable snapshot serializes to exactly these bytes.
pub open spec fn canonical_snap_doc(v: Seq<u8>) -> bool {
    exists|s0: Snapshot| snap_wf(s0) && v == #[trigger] snapshot_json(s0)
}

/// A representable snapshot: all timestamps lie in the text range.
pub open spec fn snap_wf(s: Snapshot) -> bool {
    &&& s.timestamp.wf()
    &&& forall|i: int|
        0 <= i < s.tree.nodes@.len() ==> match (#[trigger] s.tree.nodes@[i]).modified {
            Option::None => true,
            Option::Some(t) => t.wf(),
        }
}

// === Equality up to views ==================================================

/// Two optional strings carry the same text.
pub open spec fn opt_str_matches(a: Option<String>, b: Option<String>) -> bool {
    match (a, b) {
        (Option::None, Option::None) => true,
        (Option::Some(x), Option::Some(y)) => x@ == y@,
        _ => false,
    }
}

/// Two pair lists carry the same keys and values, in the same order.
pub open spec fn pairs_match(a: Seq<(String, String)>, b: Seq<(String, String)>) -> bool {
    a.len() == b.len() && forall|i: int|
        0 <= i < a.len() ==> (#[trigger] a[i]).0@ == b[i].0@ && a[i].1@ == b[i].1@
}

/// Two chunk references carry the same hash, length and offset.
pub open spec fn chunkref_matches(a: ChunkRef, b: ChunkRef) -> bool {
    a.hash@ == b.hash@ && a.length == b.length && a.offset == b.offset
}

/// Two tree nodes describe the same item.
pub open spec fn node_matches(a: TreeNode, b: TreeNode) -> bool {
    &&& a.path@ == b.path@
    &&& a.node_type == b.node_type
    &&& a.size == b.size
    &&& a.modified == b.modified
    &&& a.chunks@.len() == b.chunks@.len()
    &&& forall|i: int|
        0 <= i < a.chunks@.len() ==> chunkref_matches(#[trigger] a.chunks@[i], b.chunks@[i])
    &&& pairs_match(a.metadata@, b.metadata@)
}

/// Two snapshots carry the same record.
pub open spec fn snap_matches(a: Snapshot, b: Snapshot) -> bool {
    &&& a.id@ == b.id@
    &&& a.timestamp == b.timestamp
    &&& a.tenant@ == b.tenant@
    &&& a.service == b.service
    &&& opt_str_matches(a.user, b.user)
    &&& opt_str_matches(a.parent, b.parent)
    &&& a.tree.nodes@.len() == b.tree.nodes@.len()
    &&& forall|i: int|
        0 <= i < a.tree.nodes@.len() ==> node_matches(#[trigger] a.tree.nodes@[i], b.tree.nodes@[i])
    &&& pairs_match(a.delta_tokens@, b.delta_tokens@)
    &&& a.stats == b.stats
}

impl Snapshot {
    /// A fresh snapshot for one tenant, service and optional user: a random
    /// id, the current time, an empty tree and zeroed statistics.
    pub fn new(tenant: String, service: Service, user: Option<String>) -> (r: Self)
        ensures
            snap_wf(r),
            crate::ids::uuid_text(r.id@),
            r.tenant@ == tenant@,
            r.service == service,
            opt_str_matches(r.user, user),
            r.parent is None,
            r.tree.nodes@.len() == 0,
            r.delta_tokens@.len() == 0,
            r.stats == (BackupStats {
                total_items: 0,
                new_items: 0,
                unchanged_items: 0,
                total_bytes: 0,
                new_bytes: 0,
                deduplicated_bytes: 0,
                duration_secs: 0,
            }),
    {
        Snapshot {
            id: crate::ids::new_uuid(),
            timestamp: Timestamp::now(),
            tenant,
            service,
            user,
            parent: None,
            tree: Tree { nodes: Vec::new() },
            delta_tokens: Vec::new(),
            stats: BackupStats {
                total_items: 0,
                new_items: 0,
                unchanged_items: 0,
                total_bytes: 0,
                new_bytes: 0,
                deduplicated_bytes: 0,
                duration_secs: 0,
            },
        }
    }

    /// The eight-character display prefix of the id.
    pub fn short_id(&self) -> (r: &str)
        requires
            self.id@.len() >= 8,
        ensures
            r@ == self.id@.subrange(0, 8),
    {
        vstd::string::StrSliceExecFns::substring_char(self.id.as_str(), 0, 8)
    }

    /// Serializes the snapshot as its canonical JSON text.
    pub fn to_bytes(&self) -> (r: Result<Vec<u8>, Error>)
        requires
            snap_wf(*self),
        ensures
            r matches Ok(b) && b@ == snapshot_json(*self),
    {
        let mut out: Vec<u8> = Vec::new();
        emit_snapshot(&mut out, self);
        Ok(out)
    }

    /// Parses a snapshot from bytes. Whatever comes back is representable
    /// and re-serializes to exactly the bytes read.
    pub fn from_bytes(data: &[u8]) -> (r: Result<Self, Error>)
        ensures
            r matches Ok(s) ==> snap_wf(s) && snapshot_json(s) == data@,
            r matches Err(e) ==> e == Error::Parse,
            forall|s0: Snapshot|
                data@ == #[trigger] snapshot_json(s0) && snap_wf(s0) ==> (r matches Ok(s)
                    && snap_matches(s, s0)),
    {
        let v = vstd::slice::slice_to_vec(data);
        proof {
            assert forall|s0: Snapshot|
                data@ == snapshot_json(s0) && snap_wf(s0) implies v@.skip(0) == snapshot_json(s0)
                + Seq::<u8>::empty() by {
                assert(v@.skip(0) =~= snapshot_json(s0) + Seq::<u8>::empty());
            }
        }
        match parse_snapshot(&v, 0) {
            Some((s, p)) => {
                if p == v.len() {
                    proof {
                        assert(data@.subrange(0, data@.len() as int) =~= data@);
                    }
                    Ok(s)
                } else {
                    Err(Error::Parse)
                }
            },
            None => Err(Error::Parse),
        }
    }
}

} // verus!

// === Emitters ==============================================================

verus! {

pub proof fn lemma_pairs_json_snoc(s: Seq<(String, String)>, k: int)
    requires
        0 <= k < s.len(),
    ensures
        pairs_json_from(s.take(k + 1), 0) == pairs_json_from(s.take(k), 0) + (if k > 0 {
            seq![44u8]
        } else {
            Seq::<u8>::empty()
        }) + pair_json(s[k]),
{
    lemma_pairs_json_snoc_at(s, k, 0);
}

proof fn lemma_pairs_json_snoc_at(s: Seq<(String, String)>, k: int, j: int)
    requires
        0 <= j <= k < s.len(),
    ensures
        pairs_json_from(s.take(k + 1), j) == pairs_json_from(s.take(k), j) + (if k > j {
            seq![44u8]
        } else {
            Seq::<u8>::empty()
        }) + pair_json(s[k]),
    decreases k - j,
{
    let a = s.take(k + 1);
    let b = s.take(k);
    assert(a[j] == s[j] && a.len() == k + 1 && b.len() == k);
    if j == k {
        assert(pairs_json_from(b, j) =~= Seq::<u8>::empty());
        assert(pairs_json_from(a, j) == pair_json(a[j]) + Seq::<u8>::empty());
        assert(pairs_json_from(a, j) =~= pairs_json_from(b, j) + Seq::<u8>::empty() + pair_json(
            s[k],
        ));
    } else {
        lemma_pairs_json_snoc_at(s, k, j + 1);
        assert(b[j] == s[j]);
        if j + 1 < k {
            assert(pairs_json_from(a, j) =~= pairs_json_from(b, j) + seq![44u8] + pair_json(s[k]));
        } else {
            assert(pairs_json_from(b, j + 1) =~= Seq::<u8>::empty());
            assert(pairs_json_from(a, j) =~= pairs_json_from(b, j) + seq![44u8] + pair_json(s[k]));
        }
    }
}

pub proof fn lemma_chunks_json_snoc(s: Seq<ChunkRef>, k: int)
    requires
        0 <= k < s.len(),
    ensures
        chunks_json_from(s.take(k + 1), 0) == chunks_json_from(s.take(k), 0) + (if k > 0 {
            seq![44u8]
        } else {
            Seq::<u8>::empty()
        }) + chunkref_json(s[k]),
{
    lemma_chunks_json_snoc_at(s, k, 0);
}

proof fn lemma_chunks_json_snoc_at(s: Seq<ChunkRef>, k: int, j: int)
    requires
        0 <= j <= k < s.len(),
    ensures
        chunks_json_from(s.take(k + 1), j) == chunks_json_from(s.take(k), j) + (if k > j {
            seq![44u8]
        } else {
            Seq::<u8>::empty()
        }) + chunkref_json(s[k]),
    decreases k - j,
{
    let a = s.take(k + 1);
    let b = s.take(k);
    assert(a[j] == s[j] && a.len() == k + 1 && b.len() == k);
    if j == k {
        assert(chunks_json_from(b, j) =~= Seq::<u8>::empty());
        assert(chunks_json_from(a, j) == chunkref_json(a[j]) + Seq::<u8>::empty());
        assert(chunks_json_from(a, j) =~= chunks_json_from(b, j) + Seq::<u8>::empty()
            + chunkref_json(s[k]));
    } else {
        lemma_chunks_json_snoc_at(s, k, j + 1);
        assert(b[j] == s[j]);
        if j + 1 < k {
            assert(chunks_json_from(a, j) =~= chunks_json_from(b, j) + seq![44u8] + chunkref_json(
                s[k],
            ));
        } else {
            assert(chunks_json_from(b, j + 1) =~= Seq::<u8>::empty());
            assert(chunks_json_from(a, j) =~= chunks_json_from(b, j) + seq![44u8] + chunkref_json(
                s[k],
            ));
        }
    }
}

pub proof fn lemma_nodes_json_snoc(s: Seq<TreeNode>, k: int)
    requires
        0 <= k < s.len(),
    ensures
        nodes_json_from(s.take(k + 1), 0) == nodes_json_from(s.take(k), 0) + (if k > 0 {
            seq![44u8]
        } else {
            Seq::<u8>::empty()
        }) + node_json(s[k]),
{
    lemma_nodes_json_snoc_at(s, k, 0);
}

#[verifier::rlimit(100)]
proof fn lemma_nodes_json_snoc_at(s: Seq<TreeNode>, k: int, j: int)
    requires
        0 <= j <= k < s.len(),
    ensures
        nodes_json_from(s.take(k + 1), j) == nodes_json_from(s.take(k), j) + (if k > j {
            seq![44u8]
        } else {
            Seq::<u8>::empty()
        }) + node_json(s[k]),
    decreases k - j,
{
    let a = s.take(k + 1);
    let b = s.take(k);
    assert(a[j] == s[j] && a.len() == k + 1 && b.len() == k);
    if j == k {
        assert(nodes_json_from(b, j) =~= Seq::<u8>::empty());
        assert(nodes_json_from(a, j) == node_json(a[j]) + Seq::<u8>::empty());
        assert(nodes_json_from(a, j) =~= nodes_json_from(b, j) + Seq::<u8>::empty() + node_json(
            s[k],
        ));
    } else {
        lemma_nodes_json_snoc_at(s, k, j + 1);
        assert(b[j] == s[j]);
        if j + 1 < k {
            assert(nodes_json_from(a, j) =~= nodes_json_from(b, j) + seq![44u8] + node_json(s[k]));
        } else {
            assert(nodes_json_from(b, j + 1) =~= Seq::<u8>::empty());
            assert(nodes_json_from(a, j) =~= nodes_json_from(b, j) + seq![44u8] + node_json(s[k]));
        }
    }
}

/// Appends `null`.
fn emit_null(out: &mut Vec<u8>)
    ensures
        final(out)@ == old(out)@ + null_json(),
{
    out.push(110);
    out.push(117);
    out.push(108);
    out.push(108);
    proof {
        assert(out@ =~= old(out)@ + null_json());
    }
}

/// Appends an optional string.
fn emit_opt_str(out: &mut Vec<u8>, o: &Option<String>)
    ensures
        final(out)@ == old(out)@ + opt_str_json(*o),
{
    match o {
        Some(s) => crate::jsonfmt::emit_jstr(out, s.as_str()),
        None => emit_null(out),
    }
}

/// Appends a quoted timestamp.
fn emit_ts_quoted(out: &mut Vec<u8>, t: &Timestamp)
    requires
        t.wf(),
    ensures
        final(out)@ == old(out)@ + ts_quoted(*t),
{
    out.push(34);
    crate::timefmt::emit_timestamp(out, t);
    out.push(34);
    proof {
        assert(out@ =~= old(out)@ + ts_quoted(*t));
    }
}

/// Appends an optional quoted timestamp.
fn emit_opt_ts(out: &mut Vec<u8>, o: &Option<Timestamp>)
    requires
        o matches Some(t) ==> t.wf(),
    ensures
        final(out)@ == old(out)@ + opt_ts_json(*o),
{
    match o {
        Some(t) => emit_ts_quoted(out, t),
        None => emit_null(out),
    }
}

/// Appends a string-to-string object.
#[verifier::loop_isolation(false)]
fn emit_pairs_obj(out: &mut Vec<u8>, pairs: &Vec<(String, String)>)
    ensures
        final(out)@ == old(out)@ + pairs_obj_json(pairs@),
{
    out.push(123);
    let ghost hdr = out@;
    let mut k: usize = 0;
    proof {
        assert(pairs_json_from(pairs@.take(0), 0) =~= Seq::<u8>::empty());
        assert(out@ =~= hdr + pairs_json_from(pairs@.take(0), 0));
    }
    while k < pairs.len()
        invariant
            k <= pairs@.len(),
            out@ == hdr + pairs_json_from(pairs@.take(k as int), 0),
        decreases pairs@.len() - k,
    {
        if k > 0 {
            out.push(44);
        }
        let p = &pairs[k];
        crate::jsonfmt::emit_jstr(out, p.0.as_str());
        out.push(58);
        crate::jsonfmt::emit_jstr(out, p.1.as_str());
        proof {
            lemma_pairs_json_snoc(pairs@, k as int);
            assert(pair_json(pairs@[k as int]) =~= jstr(pairs@[k as int].0@) + (seq![58u8] + jstr(
                pairs@[k as int].1@,
            )));
            assert(out@ =~= hdr + pairs_json_from(pairs@.take(k + 1), 0));
        }
        k += 1;
    }
    out.push(125);
    proof {
        assert(pairs@.take(pairs@.len() as int) =~= pairs@);
        assert(out@ =~= old(out)@ + pairs_obj_json(pairs@));
    }
}

/// Appends one chunk reference object.
fn emit_chunkref(out: &mut Vec<u8>, c: &ChunkRef)
    ensures
        final(out)@ == old(out)@ + chunkref_json(*c),
{
    out.push(123);
    crate::jsonfmt::emit_lit(out, "\"hash\":[");
    crate::jsonfmt::emit_byte_nums(out, c.hash.as_slice());
    out.push(93);
    out.push(44);
    crate::jsonfmt::emit_lit(out, "\"length\":");
    crate::jsonfmt::emit_u64(out, c.length);
    out.push(44);
    crate::jsonfmt::emit_lit(out, "\"offset\":");
    crate::jsonfmt::emit_u64(out, c.offset);
    out.push(125);
    proof {
        assert(out@ =~= old(out)@ + chunkref_json(*c));
    }
}

/// Appends one tree node object.
#[verifier::loop_isolation(false)]
#[verifier::rlimit(100)]
fn emit_node(out: &mut Vec<u8>, n: &TreeNode)
    requires
        n.modified matches Some(t) ==> t.wf(),
    ensures
        final(out)@ == old(out)@ + node_json(*n),
{
    crate::jsonfmt::emit_lit(out, "{\"path\":");
    crate::jsonfmt::emit_jstr(out, n.path.as_str());
    crate::jsonfmt::emit_lit(out, ",\"node_type\":");
    crate::jsonfmt::emit_jstr(out, n.node_type.tag());
    crate::jsonfmt::emit_lit(out, ",\"size\":");
    crate::jsonfmt::emit_u64(out, n.size);
    out.push(44);
    crate::jsonfmt::emit_lit(out, "\"modified\":");
    emit_opt_ts(out, &n.modified);
    crate::jsonfmt::emit_lit(out, ",\"chunks\":[");
    let ghost hdr = out@;
    let mut k: usize = 0;
    proof {
        assert(chunks_json_from(n.chunks@.take(0), 0) =~= Seq::<u8>::empty());
        assert(out@ =~= hdr + chunks_json_from(n.chunks@.take(0), 0));
    }
    while k < n.chunks.len()
        invariant
            k <= n.chunks@.len(),
            out@ == hdr + chunks_json_from(n.chunks@.take(k as int), 0),
        decreases n.chunks@.len() - k,
    {
        if k > 0 {
            out.push(44);
        }
        emit_chunkref(out, &n.chunks[k]);
        proof {
            lemma_chunks_json_snoc(n.chunks@, k as int);
            assert(out@ =~= hdr + chunks_json_from(n.chunks@.take(k + 1), 0));
        }
        k += 1;
    }
    proof {
        assert(n.chunks@.take(n.chunks@.len() as int) =~= n.chunks@);
    }
    out.push(93);
    crate::jsonfmt::emit_lit(out, ",\"metadata\":");
    emit_pairs_obj(out, &n.metadata);
    out.push(125);
    proof {
        crate::jsonfmt::lemma_flatten15(
            old(out)@,
            vstd::string::StringSliceAdditionalSpecFns::spec_bytes("{\"path\":"),
            jstr(n.path@),
            vstd::string::StringSliceAdditionalSpecFns::spec_bytes(",\"node_type\":"),
            jstr(node_type_tag(n.node_type)),
            vstd::string::StringSliceAdditionalSpecFns::spec_bytes(",\"size\":"),
            dec_u64(n.size as nat),
            seq![44u8],
            vstd::string::StringSliceAdditionalSpecFns::spec_bytes("\"modified\":"),
            opt_ts_json(n.modified),
            vstd::string::StringSliceAdditionalSpecFns::spec_bytes(",\"chunks\":["),
            chunks_json_from(n.chunks@, 0),
            seq![93u8],
            vstd::string::StringSliceAdditionalSpecFns::spec_bytes(",\"metadata\":"),
            pairs_obj_json(n.metadata@),
            seq![125u8],
        );
        assert(out@ == old(out)@ + node_json(*n));
    }
}

/// Appends the statistics object.
fn emit_stats(out: &mut Vec<u8>, st: &BackupStats)
    ensures
        final(out)@ == old(out)@ + stats_json(*st),
{
    crate::jsonfmt::emit_lit(out, "{\"total_items\":");
    crate::jsonfmt::emit_u64(out, st.total_items);
    out.push(44);
    crate::jsonfmt::emit_lit(out, "\"new_items\":");
    crate::jsonfmt::emit_u64(out, st.new_items);
    out.push(44);
    crate::jsonfmt::emit_lit(out, "\"unchanged_items\":");
    crate::jsonfmt::emit_u64(out, st.unchanged_items);
    out.push(44);
    crate::jsonfmt::emit_lit(out, "\"total_bytes\":");
    crate::jsonfmt::emit_u64(out, st.total_bytes);
    out.push(44);
    crate::jsonfmt::emit_lit(out, "\"new_bytes\":");
    crate::jsonfmt::emit_u64(out, st.new_bytes);
    out.push(44);
    crate::jsonfmt::emit_lit(out, "\"deduplicated_bytes\":");
    crate::jsonfmt::emit_u64(out, st.deduplicated_bytes);
    out.push(44);
    crate::jsonfmt::emit_lit(out, "\"duration_secs\":");
    crate::jsonfmt::emit_u64(out, st.duration_secs);
    out.push(125);
    proof {
        crate::jsonfmt::lemma_absorb21(
            old(out)@,
            vstd::string::StringSliceAdditionalSpecFns::spec_bytes("{\"total_items\":"),
            dec_u64(st.total_items as nat),
            seq![44u8],
            vstd::string::StringSliceAdditionalSpecFns::spec_bytes("\"new_items\":"),
            dec_u64(st.new_items as nat),
            seq![44u8],
            vstd::string::StringSliceAdditionalSpecFns::spec_bytes("\"unchanged_items\":"),
            dec_u64(st.unchanged_items as nat),
            seq![44u8],
            vstd::string::StringSliceAdditionalSpecFns::spec_bytes("\"total_bytes\":"),
            dec_u64(st.total_bytes as nat),
            seq![44u8],
            vstd::string::StringSliceAdditionalSpecFns::spec_bytes("\"new_bytes\":"),
            dec_u64(st.new_bytes as nat),
            seq![44u8],
            vstd::string::StringSliceAdditionalSpecFns::spec_bytes("\"deduplicated_bytes\":"),
            dec_u64(st.deduplicated_bytes as nat),
            seq![44u8],
            vstd::string::StringSliceAdditionalSpecFns::spec_bytes("\"duration_secs\":"),
            dec_u64(st.duration_secs as nat),
            seq![125u8],
        );
        assert(out@ == old(out)@ + stats_json(*st));
    }
}

/// Appends the whole snapshot document.
#[verifier::loop_isolation(false)]
#[verifier::rlimit(100)]
fn emit_snapshot(out: &mut Vec<u8>, s: &Snapshot)
    requires
        snap_wf(*s),
    ensures
        final(out)@ == old(out)@ + snapshot_json(*s),
{
    crate::jsonfmt::emit_lit(out, "{\"id\":");
    crate::jsonfmt::emit_jstr(out, s.id.as_str());
    crate::jsonfmt::emit_lit(out, ",\"timestamp\":");
    emit_ts_quoted(out, &s.timestamp);
    crate::jsonfmt::emit_lit(out, ",\"tenant\":");
    crate::jsonfmt::emit_jstr(out, s.tenant.as_str());
    crate::jsonfmt::emit_lit(out, ",\"service\":");
    crate::jsonfmt::emit_jstr(out, s.service.tag());
    crate::jsonfmt::emit_lit(out, ",\"user\":");
    emit_opt_str(out, &s.user);
    crate::jsonfmt::emit_lit(out, ",\"parent\":");
    emit_opt_str(out, &s.parent);
    crate::jsonfmt::emit_lit(out, ",\"tree\":{\"nodes\":[");
    let ghost hdr = out@;
    let mut k: usize = 0;
    proof {
        assert(nodes_json_from(s.tree.nodes@.take(0), 0) =~= Seq::<u8>::empty());
        assert(out@ =~= hdr + nodes_json_from(s.tree.nodes@.take(0), 0));
    }
    while k < s.tree.nodes.len()
        invariant
            k <= s.tree.nodes@.len(),
            out@ == hdr + nodes_json_from(s.tree.nodes@.take(k as int), 0),
        decreases s.tree.nodes@.len() - k,
    {
        if k > 0 {
            out.push(44);
        }
        emit_node(out, &s.tree.nodes[k]);
        proof {
            lemma_nodes_json_snoc(s.tree.nodes@, k as int);
            assert(out@ =~= hdr + nodes_json_from(s.tree.nodes@.take(k + 1), 0));
        }
        k += 1;
    }
    proof {
        assert(s.tree.nodes@.take(s.tree.nodes@.len() as int) =~= s.tree.nodes@);
    }
    out.push(93);
    crate::jsonfmt::emit_lit(out, ",\"delta_tokens\":");
    emit_pairs_obj(out, &s.delta_tokens);
    crate::jsonfmt::emit_lit(out, ",\"stats\":");
    emit_stats(out, &s.stats);
    out.push(125);
    proof {
        reveal(crate::snapshot::snapshot_json);
        crate::jsonfmt::lemma_absorb20(
            old(out)@,
            vstd::string::StringSliceAdditionalSpecFns::spec_bytes("{\"id\":"),
            jstr(s.id@),
            vstd::string::StringSliceAdditionalSpecFns::spec_bytes(",\"timestamp\":"),
            ts_quoted(s.timestamp),
            vstd::string::StringSliceAdditionalSpecFns::spec_bytes(",\"tenant\":"),
            jstr(s.tenant@),
            vstd::string::StringSliceAdditionalSpecFns::spec_bytes(",\"service\":"),
            jstr(service_tag(s.service)),
            vstd::string::StringSliceAdditionalSpecFns::spec_bytes(",\"user\":"),
            opt_str_json(s.user),
            vstd::string::StringSliceAdditionalSpecFns::spec_bytes(",\"parent\":"),
            opt_str_json(s.parent),
            vstd::string::StringSliceAdditionalSpecFns::spec_bytes(",\"tree\":{\"nodes\":["),
            nodes_json_from(s.tree.nodes@, 0),
            seq![93u8],
            vstd::string::StringSliceAdditionalSpecFns::spec_bytes(",\"delta_tokens\":"),
            pairs_obj_json(s.delta_tokens@),
            vstd::string::StringSliceAdditionalSpecFns::spec_bytes(",\"stats\":"),
            stats_json(s.stats),
            seq![125u8],
        );
        assert(out@ == old(out)@ + snapshot_json(*s));
    }
}

} // verus!


// === Parsers ===============================================================

verus! {

/// Parses `null` at `pos`.
fn parse_null(data: &Vec<u8>, pos: usize) -> (r: Option<usize>)
    requires
        pos <= data@.len(),
    ensures
        r matches Some(p) ==> p == pos + 4 && p <= data@.len() && data@.subrange(
            pos as int,
            p as int,
        ) == null_json(),
        r is None ==> !crate::strutil::occurs_at(data@, null_json(), pos as int),
{
    if data.len() - pos < 4 {
        return None;
    }
    if data[pos] == 110 && data[pos + 1] == 117 && data[pos + 2] == 108 && data[pos + 3] == 108 {
        proof {
            assert(data@.subrange(pos as int, pos + 4) =~= null_json());
        }
        Some(pos + 4)
    } else {
        proof {
            if crate::strutil::occurs_at(data@, null_json(), pos as int) {
                assert(data@.subrange(pos as int, pos + 4) == null_json());
                assert(data@[pos as int] == data@.subrange(pos as int, pos + 4)[0]);
                assert(data@[pos + 1] == data@.subrange(pos as int, pos + 4)[1]);
                assert(data@[pos + 2] == data@.subrange(pos as int, pos + 4)[2]);
                assert(data@[pos + 3] == data@.subrange(pos as int, pos + 4)[3]);
            }
        }
        None
    }
}

/// Parses `null` or a JSON string at `pos`.
fn parse_opt_string(data: &Vec<u8>, pos: usize) -> (r: Option<(Option<String>, usize)>)
    requires
        pos <= data@.len(),
    ensures
        r matches Some((o, p)) ==> pos <= p <= data@.len() && data@.subrange(pos as int, p as int)
            == opt_str_json(o),
        forall|o0: Option<String>, rest: Seq<u8>|
            #![trigger opt_str_json(o0) + rest]
            data@.skip(pos as int) == opt_str_json(o0) + rest ==> (r matches Some((o, p))
                && opt_str_matches(o, o0) && p == pos + opt_str_json(o0).len()),
{
    if pos < data.len() && data[pos] == 110 {
        match parse_null(data, pos) {
            Some(p) => {
                proof {
                    assert forall|o0: Option<String>, rest: Seq<u8>|
                        data@.skip(pos as int) == opt_str_json(o0) + rest implies opt_str_matches(
                        None::<String>,
                        o0,
                    ) && p == pos + opt_str_json(o0).len() by {
                        if let Some(x) = o0 {
                            crate::jsonfmt::lemma_jstr_head(x@, rest);
                            assert(data@.skip(pos as int)[0] == data@[pos as int]);
                        } else {
                            assert(opt_str_json(o0).len() == 4);
                        }
                    }
                }
                Some((None, p))
            },
            None => {
                proof {
                    assert forall|o0: Option<String>, rest: Seq<u8>|
                        data@.skip(pos as int) == opt_str_json(o0) + rest implies false by {
                        if let Some(x) = o0 {
                            crate::jsonfmt::lemma_jstr_head(x@, rest);
                            assert(data@.skip(pos as int)[0] == data@[pos as int]);
                        } else {
                            crate::jsonfmt::lemma_starts_with(
                                data@,
                                pos as int,
                                null_json(),
                                rest,
                            );
                        }
                    }
                }
                None
            },
        }
    } else {
        match crate::jsonfmt::parse_string(data, pos) {
            Some((s, p)) => {
                proof {
                    assert forall|o0: Option<String>, rest: Seq<u8>|
                        data@.skip(pos as int) == opt_str_json(o0) + rest implies opt_str_matches(
                        Some(s),
                        o0,
                    ) && p == pos + opt_str_json(o0).len() by {
                        if let Some(x) = o0 {
                            assert(data@.skip(pos as int) == jstr(x@) + rest);
                        } else {
                            assert((null_json() + rest)[0] == 110);
                            if pos == data@.len() {
                                assert(data@.skip(pos as int).len() == 0);
                                assert((null_json() + rest).len() >= 4);
                            } else {
                                assert(data@.skip(pos as int)[0] == data@[pos as int]);
                            }
                        }
                    }
                }
                Some((Some(s), p))
            },
            None => {
                proof {
                    assert forall|o0: Option<String>, rest: Seq<u8>|
                        data@.skip(pos as int) == opt_str_json(o0) + rest implies false by {
                        if let Some(x) = o0 {
                            assert(data@.skip(pos as int) == jstr(x@) + rest);
                        } else {
                            assert((null_json() + rest)[0] == 110);
                            if pos == data@.len() {
                                assert(data@.skip(pos as int).len() == 0);
                                assert((null_json() + rest).len() >= 4);
                            } else {
                                assert(data@.skip(pos as int)[0] == data@[pos as int]);
                            }
                        }
                    }
                }
                None
            },
        }
    }
}

/// Small powers of ten, spelled out.
proof fn lemma_pow_small()
    ensures
        crate::timefmt::pow10(2) == 100,
        crate::timefmt::pow10(4) == 10000,
{
    assert(crate::timefmt::pow10(0) == 1);
    assert(crate::timefmt::pow10(1) == 10);
    assert(crate::timefmt::pow10(2) == 100);
    assert(crate::timefmt::pow10(3) == 1000);
    assert(crate::timefmt::pow10(4) == 10000);
}

/// The fully right-nested form of a quoted timestamp text.
#[verifier::rlimit(100)]
proof fn lemma_ts_chain(t: Timestamp, rest: Seq<u8>)
    ensures
        ts_quoted(t) + rest == seq![34u8] + (crate::timefmt::decn(t.year as nat, 4) + (seq![45u8]
            + (crate::timefmt::decn(t.month as nat, 2) + (seq![45u8] + (crate::timefmt::decn(
            t.day as nat,
            2,
        ) + (seq![84u8] + (crate::timefmt::decn(t.hour as nat, 2) + (seq![58u8] + (
        crate::timefmt::decn(t.minute as nat, 2) + (seq![58u8] + (crate::timefmt::decn(
            t.second as nat,
            2,
        ) + (seq![90u8] + (seq![34u8] + rest))))))))))))),
{
    assert(ts_quoted(t) + rest =~= seq![34u8] + (crate::timefmt::decn(t.year as nat, 4) + (
    seq![45u8] + (crate::timefmt::decn(t.month as nat, 2) + (seq![45u8] + (crate::timefmt::decn(
        t.day as nat,
        2,
    ) + (seq![84u8] + (crate::timefmt::decn(t.hour as nat, 2) + (seq![58u8] + (
    crate::timefmt::decn(t.minute as nat, 2) + (seq![58u8] + (crate::timefmt::decn(
        t.second as nat,
        2,
    ) + (seq![90u8] + (seq![34u8] + rest))))))))))))));
}

/// When a quoted timestamp stands at `pos`, every field and separator sits
/// at its fixed offset.
#[verifier::rlimit(100)]
proof fn lemma_ts_fields(data: Seq<u8>, pos: int, t: Timestamp, rest: Seq<u8>)
    requires
        0 <= pos <= data.len(),
        data.skip(pos) == ts_quoted(t) + rest,
        t.wf(),
    ensures
        pos + 22 <= data.len(),
        data[pos] == 34,
        data.skip(pos + 1) == crate::timefmt::decn((t.year as u64) as nat, 4) + (seq![45u8] + (
        crate::timefmt::decn(t.month as nat, 2) + (seq![45u8] + (crate::timefmt::decn(
            t.day as nat,
            2,
        ) + (seq![84u8] + (crate::timefmt::decn(t.hour as nat, 2) + (seq![58u8] + (
        crate::timefmt::decn(t.minute as nat, 2) + (seq![58u8] + (crate::timefmt::decn(
            t.second as nat,
            2,
        ) + (seq![90u8] + (seq![34u8] + rest)))))))))))),
        data.skip(pos + 5) == seq![45u8] + (crate::timefmt::decn(t.month as nat, 2) + (seq![45u8]
            + (crate::timefmt::decn(t.day as nat, 2) + (seq![84u8] + (crate::timefmt::decn(
            t.hour as nat,
            2,
        ) + (seq![58u8] + (crate::timefmt::decn(t.minute as nat, 2) + (seq![58u8] + (
        crate::timefmt::decn(t.second as nat, 2) + (seq![90u8] + (seq![34u8] + rest))))))))))),
        data.skip(pos + 6) == crate::timefmt::decn((t.month as u64) as nat, 2) + (seq![45u8] + (
        crate::timefmt::decn(t.day as nat, 2) + (seq![84u8] + (crate::timefmt::decn(
            t.hour as nat,
            2,
        ) + (seq![58u8] + (crate::timefmt::decn(t.minute as nat, 2) + (seq![58u8] + (
        crate::timefmt::decn(t.second as nat, 2) + (seq![90u8] + (seq![34u8] + rest)))))))))),
        data.skip(pos + 8) == seq![45u8] + (crate::timefmt::decn(t.day as nat, 2) + (seq![84u8]
            + (crate::timefmt::decn(t.hour as nat, 2) + (seq![58u8] + (crate::timefmt::decn(
            t.minute as nat,
            2,
        ) + (seq![58u8] + (crate::timefmt::decn(t.second as nat, 2) + (seq![90u8] + (seq![34u8]
            + rest))))))))),
        data.skip(pos + 9) == crate::timefmt::decn((t.day as u64) as nat, 2) + (seq![84u8] + (
        crate::timefmt::decn(t.hour as nat, 2) + (seq![58u8] + (crate::timefmt::decn(
            t.minute as nat,
            2,
        ) + (seq![58u8] + (crate::timefmt::decn(t.second as nat, 2) + (seq![90u8] + (seq![34u8]
            + rest)))))))),
        data.skip(pos + 11) == seq![84u8] + (crate::timefmt::decn(t.hour as nat, 2) + (seq![58u8]
            + (crate::timefmt::decn(t.minute as nat, 2) + (seq![58u8] + (crate::timefmt::decn(
            t.second as nat,
            2,
        ) + (seq![90u8] + (seq![34u8] + rest))))))),
        data.skip(pos + 12) == crate::timefmt::decn((t.hour as u64) as nat, 2) + (seq![58u8] + (
        crate::timefmt::decn(t.minute as nat, 2) + (seq![58u8] + (crate::timefmt::decn(
            t.second as nat,
            2,
        ) + (seq![90u8] + (seq![34u8] + rest)))))),
        data.skip(pos + 14) == seq![58u8] + (crate::timefmt::decn(t.minute as nat, 2) + (
        seq![58u8] + (crate::timefmt::decn(t.second as nat, 2) + (seq![90u8] + (seq![34u8]
            + rest))))),
        data.skip(pos + 15) == crate::timefmt::decn((t.minute as u64) as nat, 2) + (seq![58u8] + (
        crate::timefmt::decn(t.second as nat, 2) + (seq![90u8] + (seq![34u8] + rest)))),
        data.skip(pos + 17) == seq![58u8] + (crate::timefmt::decn(t.second as nat, 2) + (
        seq![90u8] + (seq![34u8] + rest))),
        data.skip(pos + 18) == crate::timefmt::decn((t.second as u64) as nat, 2) + (seq![90u8] + (
        seq![34u8] + rest)),
        data.skip(pos + 20) == seq![90u8] + (seq![34u8] + rest),
        data.skip(pos + 21) == seq![34u8] + rest,
        data.skip(pos + 22) == rest,
{
    lemma_ts_chain(t, rest);
    crate::timefmt::lemma_ts_text_len(t);
    crate::timefmt::lemma_decn_shape(t.year as nat, 4);
    crate::timefmt::lemma_decn_shape(t.month as nat, 2);
    crate::timefmt::lemma_decn_shape(t.day as nat, 2);
    crate::timefmt::lemma_decn_shape(t.hour as nat, 2);
    crate::timefmt::lemma_decn_shape(t.minute as nat, 2);
    crate::timefmt::lemma_decn_shape(t.second as nat, 2);
    assert((t.year as u64) as nat == t.year as nat);
    assert((t.month as u64) as nat == t.month as nat);
    assert((t.day as u64) as nat == t.day as nat);
    assert((t.hour as u64) as nat == t.hour as nat);
    assert((t.minute as u64) as nat == t.minute as nat);
    assert((t.second as u64) as nat == t.second as nat);
    assert(data.skip(pos).len() == data.len() - pos);
    assert((ts_quoted(t) + rest).len() == 22 + rest.len());
    assert forall|d: int| 0 <= d <= 22 implies data.skip(pos + d) == (ts_quoted(t) + rest).skip(
        d,
    ) by {
        assert(data.skip(pos + d) =~= data.skip(pos).skip(d));
    }
    assert(data.skip(pos + 1) =~= (ts_quoted(t) + rest).skip(1));
    assert((ts_quoted(t) + rest).skip(1) =~= crate::timefmt::decn(t.year as nat, 4) + (seq![45u8]
        + (crate::timefmt::decn(t.month as nat, 2) + (seq![45u8] + (crate::timefmt::decn(
        t.day as nat,
        2,
    ) + (seq![84u8] + (crate::timefmt::decn(t.hour as nat, 2) + (seq![58u8] + (
    crate::timefmt::decn(t.minute as nat, 2) + (seq![58u8] + (crate::timefmt::decn(
        t.second as nat,
        2,
    ) + (seq![90u8] + (seq![34u8] + rest)))))))))))));
    assert((ts_quoted(t) + rest).skip(5) =~= seq![45u8] + (crate::timefmt::decn(t.month as nat, 2)
        + (seq![45u8] + (crate::timefmt::decn(t.day as nat, 2) + (seq![84u8] + (
    crate::timefmt::decn(t.hour as nat, 2) + (seq![58u8] + (crate::timefmt::decn(
        t.minute as nat,
        2,
    ) + (seq![58u8] + (crate::timefmt::decn(t.second as nat, 2) + (seq![90u8] + (seq![34u8]
        + rest))))))))))));
    assert((ts_quoted(t) + rest).skip(6) =~= crate::timefmt::decn(t.month as nat, 2) + (seq![45u8]
        + (crate::timefmt::decn(t.day as nat, 2) + (seq![84u8] + (crate::timefmt::decn(
        t.hour as nat,
        2,
    ) + (seq![58u8] + (crate::timefmt::decn(t.minute as nat, 2) + (seq![58u8] + (
    crate::timefmt::decn(t.second as nat, 2) + (seq![90u8] + (seq![34u8] + rest)))))))))));
    assert((ts_quoted(t) + rest).skip(8) =~= seq![45u8] + (crate::timefmt::decn(t.day as nat, 2)
        + (seq![84u8] + (crate::timefmt::decn(t.hour as nat, 2) + (seq![58u8] + (
    crate::timefmt::decn(t.minute as nat, 2) + (seq![58u8] + (crate::timefmt::decn(
        t.second as nat,
        2,
    ) + (seq![90u8] + (seq![34u8] + rest))))))))));
    assert((ts_quoted(t) + rest).skip(9) =~= crate::timefmt::decn(t.day as nat, 2) + (seq![84u8]
        + (crate::timefmt::decn(t.hour as nat, 2) + (seq![58u8] + (crate::timefmt::decn(
        t.minute as nat,
        2,
    ) + (seq![58u8] + (crate::timefmt::decn(t.second as nat, 2) + (seq![90u8] + (seq![34u8]
        + rest)))))))));
    assert((ts_quoted(t) + rest).skip(11) =~= seq![84u8] + (crate::timefmt::decn(t.hour as nat, 2)
        + (seq![58u8] + (crate::timefmt::decn(t.minute as nat, 2) + (seq![58u8] + (
    crate::timefmt::decn(t.second as nat, 2) + (seq![90u8] + (seq![34u8] + rest))))))));
    assert((ts_quoted(t) + rest).skip(12) =~= crate::timefmt::decn(t.hour as nat, 2) + (seq![58u8]
        + (crate::timefmt::decn(t.minute as nat, 2) + (seq![58u8] + (crate::timefmt::decn(
        t.second as nat,
        2,
    ) + (seq![90u8] + (seq![34u8] + rest))))))) ;
    assert((ts_quoted(t) + rest).skip(14) =~= seq![58u8] + (crate::timefmt::decn(
        t.minute as nat,
        2,
    ) + (seq![58u8] + (crate::timefmt::decn(t.second as nat, 2) + (seq![90u8] + (seq![34u8]
        + rest))))));
    assert((ts_quoted(t) + rest).skip(15) =~= crate::timefmt::decn(t.minute as nat, 2) + (
    seq![58u8] + (crate::timefmt::decn(t.second as nat, 2) + (seq![90u8] + (seq![34u8]
        + rest)))));
    assert((ts_quoted(t) + rest).skip(17) =~= seq![58u8] + (crate::timefmt::decn(
        t.second as nat,
        2,
    ) + (seq![90u8] + (seq![34u8] + rest))));
    assert((ts_quoted(t) + rest).skip(18) =~= crate::timefmt::decn(t.second as nat, 2) + (
    seq![90u8] + (seq![34u8] + rest)));
    assert((ts_quoted(t) + rest).skip(20) =~= seq![90u8] + (seq![34u8] + rest));
    assert((ts_quoted(t) + rest).skip(21) =~= seq![34u8] + rest);
    assert((ts_quoted(t) + rest).skip(22) =~= rest);
    assert(data[pos] == data.skip(pos)[0]);
    assert((ts_quoted(t) + rest)[0] == 34) by {
        assert(ts_quoted(t)[0] == 34);
    }
}

/// Parses a quoted timestamp at `pos`, checking every field range: what
/// comes back re-serializes exactly, and any well-formed quoted timestamp
/// text is accepted.
#[verifier::loop_isolation(false)]
#[verifier::rlimit(100)]
fn parse_ts_quoted(data: &Vec<u8>, pos: usize) -> (r: Option<(Timestamp, usize)>)
    requires
        pos <= data@.len(),
    ensures
        r matches Some((t, p)) ==> pos < p <= data@.len() && t.wf() && data@.subrange(
            pos as int,
            p as int,
        ) == ts_quoted(t),
        forall|t0: Timestamp, rest: Seq<u8>|
            #![trigger ts_quoted(t0) + rest]
            data@.skip(pos as int) == ts_quoted(t0) + rest && t0.wf() ==> (r matches Some((t, p))
                && t == t0 && p == pos + 22),
{
    let q0 = match crate::jsonfmt::expect_byte(data, pos, 34) {
        Some(p) => p,
        None => {
            proof {
                assert forall|t0: Timestamp, rest: Seq<u8>|
                    data@.skip(pos as int) == ts_quoted(t0) + rest && t0.wf() implies false by {
                    lemma_ts_fields(data@, pos as int, t0, rest);
                    lemma_pow_small();
                }
            }
            return None;
        },
    };
    let (year, q1) = match crate::timefmt::parse_fixed(data, q0, 4) {
        Some(t) => t,
        None => {
            proof {
                assert forall|t0: Timestamp, rest: Seq<u8>|
                    data@.skip(pos as int) == ts_quoted(t0) + rest && t0.wf() implies false by {
                    lemma_ts_fields(data@, pos as int, t0, rest);
                    lemma_pow_small();
                    let v64: u64 = t0.year as u64;
                    assert((v64 as nat) < crate::timefmt::pow10(4));
                }
            }
            return None;
        },
    };
    let q2 = match crate::jsonfmt::expect_byte(data, q1, 45) {
        Some(p) => p,
        None => {
            proof {
                assert forall|t0: Timestamp, rest: Seq<u8>|
                    data@.skip(pos as int) == ts_quoted(t0) + rest && t0.wf() implies false by {
                    lemma_ts_fields(data@, pos as int, t0, rest);
                    lemma_pow_small();
                    assert(data@.skip(q1 as int)[0] == data@[q1 as int]);
                }
            }
            return None;
        },
    };
    let (month, q3) = match crate::timefmt::parse_fixed(data, q2, 2) {
        Some(t) => t,
        None => {
            proof {
                assert forall|t0: Timestamp, rest: Seq<u8>|
                    data@.skip(pos as int) == ts_quoted(t0) + rest && t0.wf() implies false by {
                    lemma_ts_fields(data@, pos as int, t0, rest);
                    lemma_pow_small();
                    let v64: u64 = t0.month as u64;
                    assert((v64 as nat) < crate::timefmt::pow10(2));
                }
            }
            return None;
        },
    };
    let q4 = match crate::jsonfmt::expect_byte(data, q3, 45) {
        Some(p) => p,
        None => {
            proof {
                assert forall|t0: Timestamp, rest: Seq<u8>|
                    data@.skip(pos as int) == ts_quoted(t0) + rest && t0.wf() implies false by {
                    lemma_ts_fields(data@, pos as int, t0, rest);
                    lemma_pow_small();
                    assert(data@.skip(q3 as int)[0] == data@[q3 as int]);
                }
            }
            return None;
        },
    };
    let (day, q5) = match crate::timefmt::parse_fixed(data, q4, 2) {
        Some(t) => t,
        None => {
            proof {
                assert forall|t0: Timestamp, rest: Seq<u8>|
                    data@.skip(pos as int) == ts_quoted(t0) + rest && t0.wf() implies false by {
                    lemma_ts_fields(data@, pos as int, t0, rest);
                    lemma_pow_small();
                    let v64: u64 = t0.day as u64;
                    assert((v64 as nat) < crate::timefmt::pow10(2));
                }
            }
            return None;
        },
    };
    let q6 = match crate::jsonfmt::expect_byte(data, q5, 84) {
        Some(p) => p,
        None => {
            proof {
                assert forall|t0: Timestamp, rest: Seq<u8>|
                    data@.skip(pos as int) == ts_quoted(t0) + rest && t0.wf() implies false by {
                    lemma_ts_fields(data@, pos as int, t0, rest);
                    lemma_pow_small();
                    assert(data@.skip(q5 as int)[0] == data@[q5 as int]);
                }
            }
            return None;
        },
    };
    let (hour, q7) = match crate::timefmt::parse_fixed(data, q6, 2) {
        Some(t) => t,
        None => {
            proof {
                assert forall|t0: Timestamp, rest: Seq<u8>|
                    data@.skip(pos as int) == ts_quoted(t0) + rest && t0.wf() implies false by {
                    lemma_ts_fields(data@, pos as int, t0, rest);
                    lemma_pow_small();
                    let v64: u64 = t0.hour as u64;
                    assert((v64 as nat) < crate::timefmt::pow10(2));
                }
            }
            return None;
        },
    };
    let q8 = match crate::jsonfmt::expect_byte(data, q7, 58) {
        Some(p) => p,
        None => {
            proof {
                assert forall|t0: Timestamp, rest: Seq<u8>|
                    data@.skip(pos as int) == ts_quoted(t0) + rest && t0.wf() implies false by {
                    lemma_ts_fields(data@, pos as int, t0, rest);
                    lemma_pow_small();
                    assert(data@.skip(q7 as int)[0] == data@[q7 as int]);
                }
            }
            return None;
        },
    };
    let (minute, q9) = match crate::timefmt::parse_fixed(data, q8, 2) {
        Some(t) => t,
        None => {
            proof {
                assert forall|t0: Timestamp, rest: Seq<u8>|
                    data@.skip(pos as int) == ts_quoted(t0) + rest && t0.wf() implies false by {
                    lemma_ts_fields(data@, pos as int, t0, rest);
                    lemma_pow_small();
                    let v64: u64 = t0.minute as u64;
                    assert((v64 as nat) < crate::timefmt::pow10(2));
                }
            }
            return None;
        },
    };
    let q10 = match crate::jsonfmt::expect_byte(data, q9, 58) {
        Some(p) => p,
        None => {
            proof {
                assert forall|t0: Timestamp, rest: Seq<u8>|
                    data@.skip(pos as int) == ts_quoted(t0) + rest && t0.wf() implies false by {
                    lemma_ts_fields(data@, pos as int, t0, rest);
                    lemma_pow_small();
                    assert(data@.skip(q9 as int)[0] == data@[q9 as int]);
                }
            }
            return None;
        },
    };
    let (second, q11) = match crate::timefmt::parse_fixed(data, q10, 2) {
        Some(t) => t,
        None => {
            proof {
                assert forall|t0: Timestamp, rest: Seq<u8>|
                    data@.skip(pos as int) == ts_quoted(t0) + rest && t0.wf() implies false by {
                    lemma_ts_fields(data@, pos as int, t0, rest);
                    lemma_pow_small();
                    let v64: u64 = t0.second as u64;
                    assert((v64 as nat) < crate::timefmt::pow10(2));
                }
            }
            return None;
        },
    };
    let q12 = match crate::jsonfmt::expect_byte(data, q11, 90) {
        Some(p) => p,
        None => {
            proof {
                assert forall|t0: Timestamp, rest: Seq<u8>|
                    data@.skip(pos as int) == ts_quoted(t0) + rest && t0.wf() implies false by {
                    lemma_ts_fields(data@, pos as int, t0, rest);
                    lemma_pow_small();
                    assert(data@.skip(q11 as int)[0] == data@[q11 as int]);
                }
            }
            return None;
        },
    };
    let q13 = match crate::jsonfmt::expect_byte(data, q12, 34) {
        Some(p) => p,
        None => {
            proof {
                assert forall|t0: Timestamp, rest: Seq<u8>|
                    data@.skip(pos as int) == ts_quoted(t0) + rest && t0.wf() implies false by {
                    lemma_ts_fields(data@, pos as int, t0, rest);
                    lemma_pow_small();
                    assert(data@.skip(q12 as int)[0] == data@[q12 as int]);
                }
            }
            return None;
        },
    };
    if !(1 <= year && year <= 9999 && 1 <= month && month <= 12 && 1 <= day && day <= 31
        && hour <= 23 && minute <= 59 && second <= 59) {
        proof {
            assert forall|t0: Timestamp, rest: Seq<u8>|
                data@.skip(pos as int) == ts_quoted(t0) + rest && t0.wf() implies false by {
                lemma_ts_fields(data@, pos as int, t0, rest);
                    lemma_pow_small();
                let y64: u64 = t0.year as u64;
                let mo64: u64 = t0.month as u64;
                let d64: u64 = t0.day as u64;
                let h64: u64 = t0.hour as u64;
                let mi64: u64 = t0.minute as u64;
                let s64: u64 = t0.second as u64;
                assert((y64 as nat) < crate::timefmt::pow10(4));
                assert((mo64 as nat) < crate::timefmt::pow10(2));
                assert((d64 as nat) < crate::timefmt::pow10(2));
                assert((h64 as nat) < crate::timefmt::pow10(2));
                assert((mi64 as nat) < crate::timefmt::pow10(2));
                assert((s64 as nat) < crate::timefmt::pow10(2));
            }
        }
        return None;
    }
    let t = Timestamp {
        year: year as u32,
        month: month as u32,
        day: day as u32,
        hour: hour as u32,
        minute: minute as u32,
        second: second as u32,
    };
    proof {
        assert(data@.subrange(pos as int, q0 as int) =~= seq![34u8]);
        assert(data@.subrange(q1 as int, q2 as int) =~= seq![45u8]);
        assert(data@.subrange(q3 as int, q4 as int) =~= seq![45u8]);
        assert(data@.subrange(q5 as int, q6 as int) =~= seq![84u8]);
        assert(data@.subrange(q7 as int, q8 as int) =~= seq![58u8]);
        assert(data@.subrange(q9 as int, q10 as int) =~= seq![58u8]);
        assert(data@.subrange(q11 as int, q12 as int) =~= seq![90u8]);
        assert(data@.subrange(q12 as int, q13 as int) =~= seq![34u8]);
        crate::jsonfmt::lemma_subrange_compose(data@, pos as int, q0 as int, q1 as int);
        crate::jsonfmt::lemma_subrange_compose(data@, pos as int, q1 as int, q2 as int);
        crate::jsonfmt::lemma_subrange_compose(data@, pos as int, q2 as int, q3 as int);
        crate::jsonfmt::lemma_subrange_compose(data@, pos as int, q3 as int, q4 as int);
        crate::jsonfmt::lemma_subrange_compose(data@, pos as int, q4 as int, q5 as int);
        crate::jsonfmt::lemma_subrange_compose(data@, pos as int, q5 as int, q6 as int);
        crate::jsonfmt::lemma_subrange_compose(data@, pos as int, q6 as int, q7 as int);
        crate::jsonfmt::lemma_subrange_compose(data@, pos as int, q7 as int, q8 as int);
        crate::jsonfmt::lemma_subrange_compose(data@, pos as int, q8 as int, q9 as int);
        crate::jsonfmt::lemma_subrange_compose(data@, pos as int, q9 as int, q10 as int);
        crate::jsonfmt::lemma_subrange_compose(data@, pos as int, q10 as int, q11 as int);
        crate::jsonfmt::lemma_subrange_compose(data@, pos as int, q11 as int, q12 as int);
        crate::jsonfmt::lemma_absorb12(
            seq![34u8],
            crate::timefmt::decn(t.year as nat, 4),
            seq![45u8],
            crate::timefmt::decn(t.month as nat, 2),
            seq![45u8],
            crate::timefmt::decn(t.day as nat, 2),
            seq![84u8],
            crate::timefmt::decn(t.hour as nat, 2),
            seq![58u8],
            crate::timefmt::decn(t.minute as nat, 2),
            seq![58u8],
            crate::timefmt::decn(t.second as nat, 2),
            seq![90u8],
        );
        crate::jsonfmt::lemma_subrange_compose(data@, pos as int, q12 as int, q13 as int);
        assert((t.year as nat) == (year as nat) && (t.month as nat) == (month as nat)
            && (t.day as nat) == (day as nat) && (t.hour as nat) == (hour as nat) && (
        t.minute as nat) == (minute as nat) && (t.second as nat) == (second as nat));
        assert(ts_text(t) == crate::timefmt::decn(t.year as nat, 4) + seq![45u8]
            + crate::timefmt::decn(t.month as nat, 2) + seq![45u8] + crate::timefmt::decn(
            t.day as nat,
            2,
        ) + seq![84u8] + crate::timefmt::decn(t.hour as nat, 2) + seq![58u8]
            + crate::timefmt::decn(t.minute as nat, 2) + seq![58u8] + crate::timefmt::decn(
            t.second as nat,
            2,
        ) + seq![90u8]);
        assert(data@.subrange(pos as int, q13 as int) == ts_quoted(t));
        assert forall|t0: Timestamp, rest: Seq<u8>|
            data@.skip(pos as int) == ts_quoted(t0) + rest && t0.wf() implies t == t0 && q13 == pos + 22 by {
            lemma_ts_fields(data@, pos as int, t0, rest);
                    lemma_pow_small();
            let y64: u64 = t0.year as u64;
            let mo64: u64 = t0.month as u64;
            let d64: u64 = t0.day as u64;
            let h64: u64 = t0.hour as u64;
            let mi64: u64 = t0.minute as u64;
            let s64: u64 = t0.second as u64;
            assert((y64 as nat) < crate::timefmt::pow10(4));
            assert((mo64 as nat) < crate::timefmt::pow10(2));
            assert((d64 as nat) < crate::timefmt::pow10(2));
            assert((h64 as nat) < crate::timefmt::pow10(2));
            assert((mi64 as nat) < crate::timefmt::pow10(2));
            assert((s64 as nat) < crate::timefmt::pow10(2));
            assert(year == y64 && month == mo64 && day == d64 && hour == h64 && minute == mi64
                && second == s64);
        }
    }
    Some((t, q13))
}

/// Parses `null` or a quoted timestamp at `pos`.
fn parse_opt_ts(data: &Vec<u8>, pos: usize) -> (r: Option<(Option<Timestamp>, usize)>)
    requires
        pos <= data@.len(),
    ensures
        r matches Some((o, p)) ==> pos <= p <= data@.len() && data@.subrange(pos as int, p as int)
            == opt_ts_json(o) && (o matches Some(t) ==> t.wf()),
        forall|o0: Option<Timestamp>, rest: Seq<u8>|
            #![trigger opt_ts_json(o0) + rest]
            data@.skip(pos as int) == opt_ts_json(o0) + rest && (o0 matches Some(t0) ==> t0.wf())
                ==> (r matches Some((o, p)) && o == o0 && p == pos + opt_ts_json(o0).len()),
{
    if pos < data.len() && data[pos] == 110 {
        match parse_null(data, pos) {
            Some(p) => {
                proof {
                    assert forall|o0: Option<Timestamp>, rest: Seq<u8>|
                        data@.skip(pos as int) == opt_ts_json(o0) + rest && (o0 matches Some(t0)
                            ==> t0.wf()) implies None::<Timestamp> == o0 && p == pos + opt_ts_json(
                        o0,
                    ).len() by {
                        if let Some(x) = o0 {
                            lemma_ts_fields(data@, pos as int, x, rest);
                        } else {
                            assert(opt_ts_json(o0).len() == 4);
                        }
                    }
                }
                Some((None, p))
            },
            None => {
                proof {
                    assert forall|o0: Option<Timestamp>, rest: Seq<u8>|
                        data@.skip(pos as int) == opt_ts_json(o0) + rest && (o0 matches Some(t0)
                            ==> t0.wf()) implies false by {
                        if let Some(x) = o0 {
                            lemma_ts_fields(data@, pos as int, x, rest);
                        } else {
                            crate::jsonfmt::lemma_starts_with(
                                data@,
                                pos as int,
                                null_json(),
                                rest,
                            );
                        }
                    }
                }
                None
            },
        }
    } else {
        match parse_ts_quoted(data, pos) {
            Some((t, p)) => {
                proof {
                    assert forall|o0: Option<Timestamp>, rest: Seq<u8>|
                        data@.skip(pos as int) == opt_ts_json(o0) + rest && (o0 matches Some(t0)
                            ==> t0.wf()) implies Some(t) == o0 && p == pos + opt_ts_json(
                        o0,
                    ).len() by {
                        if let Some(x) = o0 {
                            crate::timefmt::lemma_ts_text_len(x);
                        } else {
                            assert((null_json() + rest)[0] == 110);
                            if pos == data@.len() {
                                assert(data@.skip(pos as int).len() == 0);
                            } else {
                                assert(data@.skip(pos as int)[0] == data@[pos as int]);
                            }
                        }
                    }
                }
                Some((Some(t), p))
            },
            None => {
                proof {
                    assert forall|o0: Option<Timestamp>, rest: Seq<u8>|
                        data@.skip(pos as int) == opt_ts_json(o0) + rest && (o0 matches Some(t0)
                            ==> t0.wf()) implies false by {
                        if let Some(x) = o0 {
                        } else {
                            assert((null_json() + rest)[0] == 110);
                            if pos == data@.len() {
                                assert(data@.skip(pos as int).len() == 0);
                            } else {
                                assert(data@.skip(pos as int)[0] == data@[pos as int]);
                            }
                        }
                    }
                }
                None
            },
        }
    }
}

/// Parses a quoted service tag at `pos`.
fn parse_service(data: &Vec<u8>, pos: usize) -> (r: Option<(Service, usize)>)
    requires
        pos <= data@.len(),
    ensures
        r matches Some((sv, p)) ==> pos < p <= data@.len() && data@.subrange(pos as int, p as int)
            == jstr(service_tag(sv)),
        forall|sv0: Service, rest: Seq<u8>|
            #![trigger jstr(service_tag(sv0)) + rest]
            data@.skip(pos as int) == jstr(service_tag(sv0)) + rest ==> (r matches Some((sv, p))
                && sv == sv0 && p == pos + jstr(service_tag(sv0)).len()),
{
    proof {
        reveal_strlit("onedrive");
        reveal_strlit("exchange");
        reveal_strlit("sharepoint");
        reveal_strlit("teams");
        assert("onedrive"@.len() == 8 && "exchange"@.len() == 8 && "sharepoint"@.len() == 10
            && "teams"@.len() == 5);
        assert("onedrive"@[0] == 'o' && "exchange"@[0] == 'e' && "sharepoint"@[0] == 's'
            && "teams"@[0] == 't');
    }
    let (s, p) = match crate::jsonfmt::parse_string(data, pos) {
        Some(t) => t,
        None => {
            proof {
                assert forall|sv0: Service, rest: Seq<u8>|
                    data@.skip(pos as int) == jstr(service_tag(sv0)) + rest implies false by {}
            }
            return None;
        },
    };
    proof {
        assert forall|sv0: Service, rest: Seq<u8>|
            data@.skip(pos as int) == jstr(service_tag(sv0)) + rest implies s@ == service_tag(sv0)
            && p == pos + jstr(service_tag(sv0)).len() by {}
    }
    if crate::strutil::str_eq(s.as_str(), "onedrive") {
        Some((Service::OneDrive, p))
    } else if crate::strutil::str_eq(s.as_str(), "exchange") {
        Some((Service::Exchange, p))
    } else if crate::strutil::str_eq(s.as_str(), "sharepoint") {
        Some((Service::SharePoint, p))
    } else if crate::strutil::str_eq(s.as_str(), "teams") {
        Some((Service::Teams, p))
    } else {
        proof {
            assert forall|sv0: Service, rest: Seq<u8>|
                data@.skip(pos as int) == jstr(service_tag(sv0)) + rest implies false by {
                assert(s@ == service_tag(sv0));
            }
        }
        None
    }
}

/// Parses a quoted node-type tag at `pos`.
fn parse_node_type(data: &Vec<u8>, pos: usize) -> (r: Option<(NodeType, usize)>)
    requires
        pos <= data@.len(),
    ensures
        r matches Some((t, p)) ==> pos < p <= data@.len() && data@.subrange(pos as int, p as int)
            == jstr(node_type_tag(t)),
        forall|t0: NodeType, rest: Seq<u8>|
            #![trigger jstr(node_type_tag(t0)) + rest]
            data@.skip(pos as int) == jstr(node_type_tag(t0)) + rest ==> (r matches Some((t, p))
                && t == t0 && p == pos + jstr(node_type_tag(t0)).len()),
{
    proof {
        reveal_strlit("file");
        reveal_strlit("directory");
        reveal_strlit("mail");
        reveal_strlit("calendar");
        reveal_strlit("contact");
        reveal_strlit("message");
        assert("file"@.len() == 4 && "directory"@.len() == 9 && "mail"@.len() == 4
            && "calendar"@.len() == 8 && "contact"@.len() == 7 && "message"@.len() == 7);
        assert("file"@[0] == 'f' && "mail"@[0] == 'm' && "contact"@[0] == 'c' && "message"@[0]
            == 'm');
    }
    let (s, p) = match crate::jsonfmt::parse_string(data, pos) {
        Some(t) => t,
        None => {
            proof {
                assert forall|t0: NodeType, rest: Seq<u8>|
                    data@.skip(pos as int) == jstr(node_type_tag(t0)) + rest implies false by {}
            }
            return None;
        },
    };
    proof {
        assert forall|t0: NodeType, rest: Seq<u8>|
            data@.skip(pos as int) == jstr(node_type_tag(t0)) + rest implies s@ == node_type_tag(
            t0,
        ) && p == pos + jstr(node_type_tag(t0)).len() by {}
    }
    if crate::strutil::str_eq(s.as_str(), "file") {
        Some((NodeType::File, p))
    } else if crate::strutil::str_eq(s.as_str(), "directory") {
        Some((NodeType::Directory, p))
    } else if crate::strutil::str_eq(s.as_str(), "mail") {
        Some((NodeType::Mail, p))
    } else if crate::strutil::str_eq(s.as_str(), "calendar") {
        Some((NodeType::Calendar, p))
    } else if crate::strutil::str_eq(s.as_str(), "contact") {
        Some((NodeType::Contact, p))
    } else if crate::strutil::str_eq(s.as_str(), "message") {
        Some((NodeType::Message, p))
    } else {
        proof {
            assert forall|t0: NodeType, rest: Seq<u8>|
                data@.skip(pos as int) == jstr(node_type_tag(t0)) + rest implies false by {
                assert(s@ == node_type_tag(t0));
            }
        }
        None
    }
}

/// Parses one chunk reference object at `pos`: what comes back
/// re-serializes exactly, and the text of any reference is accepted.
#[verifier::loop_isolation(false)]
#[verifier::rlimit(100)]
fn parse_chunkref(data: &Vec<u8>, pos: usize) -> (r: Option<(ChunkRef, usize)>)
    requires
        pos <= data@.len(),
    ensures
        r matches Some((c, p)) ==> pos < p <= data@.len() && data@.subrange(pos as int, p as int)
            == chunkref_json(c),
        forall|c0: ChunkRef, rest: Seq<u8>|
            #![trigger chunkref_json(c0) + rest]
            data@.skip(pos as int) == chunkref_json(c0) + rest ==> (r matches Some((c, p))
                && chunkref_matches(c, c0) && p == pos + chunkref_json(c0).len()),
{
    let ghost lh = bytes_of_str("\"hash\":["@);
    let ghost ln = bytes_of_str("\"length\":"@);
    let ghost lo = bytes_of_str("\"offset\":"@);
    let ghost tail1 = |c0: ChunkRef| lh + (nums_json(c0.hash@, 0) + (seq![93u8, 44u8] + (ln + (
    dec_u64(c0.length as nat) + (seq![44u8] + (lo + (dec_u64(c0.offset as nat)
        + seq![125u8])))))));
    let p0 = match crate::jsonfmt::expect_byte(data, pos, 123) {
        Some(p) => p,
        None => {
            proof {
                assert forall|c0: ChunkRef, rest: Seq<u8>|
                    data@.skip(pos as int) == chunkref_json(c0) + rest implies false by {
                    crate::jsonfmt::lemma_add_assoc(seq![123u8], tail1(c0), rest);
                    crate::jsonfmt::lemma_starts_with(data@, pos as int, seq![123u8], tail1(c0)
                        + rest);
                    assert(data@.skip(pos as int)[0] == data@[pos as int]);
                }
            }
            return None;
        },
    };
    proof {
        assert forall|c0: ChunkRef, rest: Seq<u8>|
            data@.skip(pos as int) == chunkref_json(c0) + rest implies data@.skip(p0 as int)
            == tail1(c0) + rest by {
            crate::jsonfmt::lemma_add_assoc(seq![123u8], tail1(c0), rest);
            crate::jsonfmt::lemma_starts_with(data@, pos as int, seq![123u8], tail1(c0) + rest);
        }
    }
    let p1 = match crate::jsonfmt::expect(data, p0, "\"hash\":[") {
        Some(p) => p,
        None => {
            proof {
                assert forall|c0: ChunkRef, rest: Seq<u8>|
                    data@.skip(pos as int) == chunkref_json(c0) + rest implies false by {
                    let t2 = nums_json(c0.hash@, 0) + (seq![93u8, 44u8] + (ln + (dec_u64(
                        c0.length as nat,
                    ) + (seq![44u8] + (lo + (dec_u64(c0.offset as nat) + seq![125u8]))))));
                    crate::jsonfmt::lemma_add_assoc(lh, t2, rest);
                    crate::jsonfmt::lemma_starts_with(data@, p0 as int, lh, t2 + rest);
                }
            }
            return None;
        },
    };
    proof {
        assert forall|c0: ChunkRef, rest: Seq<u8>|
            data@.skip(pos as int) == chunkref_json(c0) + rest implies data@.skip(p1 as int)
            == nums_json(c0.hash@, 0) + ((seq![93u8, 44u8] + (ln + (dec_u64(c0.length as nat) + (
        seq![44u8] + (lo + (dec_u64(c0.offset as nat) + seq![125u8])))))) + rest) by {
            let t2 = nums_json(c0.hash@, 0) + (seq![93u8, 44u8] + (ln + (dec_u64(
                c0.length as nat,
            ) + (seq![44u8] + (lo + (dec_u64(c0.offset as nat) + seq![125u8]))))));
            crate::jsonfmt::lemma_add_assoc(lh, t2, rest);
            crate::jsonfmt::lemma_starts_with(data@, p0 as int, lh, t2 + rest);
            crate::jsonfmt::lemma_add_assoc(
                nums_json(c0.hash@, 0),
                seq![93u8, 44u8] + (ln + (dec_u64(c0.length as nat) + (seq![44u8] + (lo + (
                dec_u64(c0.offset as nat) + seq![125u8]))))),
                rest,
            );
        }
    }
    let (hash_vec, p2) = match crate::jsonfmt::parse_byte_nums(data, p1, 32) {
        Some(t) => t,
        None => {
            proof {
                assert forall|c0: ChunkRef, rest: Seq<u8>|
                    data@.skip(pos as int) == chunkref_json(c0) + rest implies false by {
                    let t3 = (seq![93u8, 44u8] + (ln + (dec_u64(c0.length as nat) + (seq![44u8]
                        + (lo + (dec_u64(c0.offset as nat) + seq![125u8])))))) + rest;
                    assert(t3[0] == 93);
                    assert(c0.hash@.len() == 32);
                }
            }
            return None;
        },
    };
    proof {
        assert forall|c0: ChunkRef, rest: Seq<u8>|
            data@.skip(pos as int) == chunkref_json(c0) + rest implies hash_vec@ == c0.hash@
            && data@.skip(p2 as int) == seq![93u8, 44u8] + ((ln + (dec_u64(c0.length as nat) + (
        seq![44u8] + (lo + (dec_u64(c0.offset as nat) + seq![125u8]))))) + rest) by {
            let t3 = (seq![93u8, 44u8] + (ln + (dec_u64(c0.length as nat) + (seq![44u8] + (lo + (
            dec_u64(c0.offset as nat) + seq![125u8])))))) + rest;
            assert(t3[0] == 93);
            assert(c0.hash@.len() == 32);
            crate::jsonfmt::lemma_starts_with(data@, p1 as int, nums_json(c0.hash@, 0), t3);
            crate::jsonfmt::lemma_add_assoc(
                seq![93u8, 44u8],
                ln + (dec_u64(c0.length as nat) + (seq![44u8] + (lo + (dec_u64(c0.offset as nat)
                    + seq![125u8])))),
                rest,
            );
        }
    }
    let p3 = match crate::jsonfmt::expect_byte(data, p2, 93) {
        Some(p) => p,
        None => {
            proof {
                assert forall|c0: ChunkRef, rest: Seq<u8>|
                    data@.skip(pos as int) == chunkref_json(c0) + rest implies false by {
                    assert(data@.skip(p2 as int)[0] == data@[p2 as int]);
                }
            }
            return None;
        },
    };
    let p4 = match crate::jsonfmt::expect_byte(data, p3, 44) {
        Some(p) => p,
        None => {
            proof {
                assert forall|c0: ChunkRef, rest: Seq<u8>|
                    data@.skip(pos as int) == chunkref_json(c0) + rest implies false by {
                    assert(data@.skip(p2 as int).len() >= 2) by {
                        assert(data@.skip(p2 as int)[0] == 93);
                    }
                    assert(data@.skip(p2 as int)[1] == data@[p2 + 1]);
                }
            }
            return None;
        },
    };
    proof {
        assert forall|c0: ChunkRef, rest: Seq<u8>|
            data@.skip(pos as int) == chunkref_json(c0) + rest implies data@.skip(p4 as int) == ln
            + ((dec_u64(c0.length as nat) + (seq![44u8] + (lo + (dec_u64(c0.offset as nat)
            + seq![125u8])))) + rest) by {
            let t4 = (ln + (dec_u64(c0.length as nat) + (seq![44u8] + (lo + (dec_u64(
                c0.offset as nat,
            ) + seq![125u8]))))) + rest;
            crate::jsonfmt::lemma_starts_with(data@, p2 as int, seq![93u8, 44u8], t4);
            crate::jsonfmt::lemma_add_assoc(
                ln,
                dec_u64(c0.length as nat) + (seq![44u8] + (lo + (dec_u64(c0.offset as nat)
                    + seq![125u8]))),
                rest,
            );
        }
    }
    let p5 = match crate::jsonfmt::expect(data, p4, "\"length\":") {
        Some(p) => p,
        None => {
            proof {
                assert forall|c0: ChunkRef, rest: Seq<u8>|
                    data@.skip(pos as int) == chunkref_json(c0) + rest implies false by {
                    let t5 = (dec_u64(c0.length as nat) + (seq![44u8] + (lo + (dec_u64(
                        c0.offset as nat,
                    ) + seq![125u8])))) + rest;
                    crate::jsonfmt::lemma_starts_with(data@, p4 as int, ln, t5);
                }
            }
            return None;
        },
    };
    proof {
        assert forall|c0: ChunkRef, rest: Seq<u8>|
            data@.skip(pos as int) == chunkref_json(c0) + rest implies data@.skip(p5 as int)
            == dec_u64(c0.length as nat) + ((seq![44u8] + (lo + (dec_u64(c0.offset as nat)
            + seq![125u8]))) + rest) by {
            let t5 = (dec_u64(c0.length as nat) + (seq![44u8] + (lo + (dec_u64(c0.offset as nat)
                + seq![125u8])))) + rest;
            crate::jsonfmt::lemma_starts_with(data@, p4 as int, ln, t5);
            crate::jsonfmt::lemma_add_assoc(
                dec_u64(c0.length as nat),
                seq![44u8] + (lo + (dec_u64(c0.offset as nat) + seq![125u8])),
                rest,
            );
        }
    }
    let (length, p6) = match crate::jsonfmt::parse_u64(data, p5) {
        Some(t) => t,
        None => {
            proof {
                assert forall|c0: ChunkRef, rest: Seq<u8>|
                    data@.skip(pos as int) == chunkref_json(c0) + rest implies false by {
                    let t6 = (seq![44u8] + (lo + (dec_u64(c0.offset as nat) + seq![125u8])))
                        + rest;
                    assert(t6[0] == 44);
                }
            }
            return None;
        },
    };
    proof {
        assert forall|c0: ChunkRef, rest: Seq<u8>|
            data@.skip(pos as int) == chunkref_json(c0) + rest implies length == c0.length
            && data@.skip(p6 as int) == seq![44u8] + ((lo + (dec_u64(c0.offset as nat)
            + seq![125u8])) + rest) by {
            let t6 = (seq![44u8] + (lo + (dec_u64(c0.offset as nat) + seq![125u8]))) + rest;
            assert(t6[0] == 44);
            crate::jsonfmt::lemma_starts_with(data@, p5 as int, dec_u64(c0.length as nat), t6);
            crate::jsonfmt::lemma_add_assoc(
                seq![44u8],
                lo + (dec_u64(c0.offset as nat) + seq![125u8]),
                rest,
            );
        }
    }
    let p7 = match crate::jsonfmt::expect_byte(data, p6, 44) {
        Some(p) => p,
        None => {
            proof {
                assert forall|c0: ChunkRef, rest: Seq<u8>|
                    data@.skip(pos as int) == chunkref_json(c0) + rest implies false by {
                    assert(data@.skip(p6 as int)[0] == data@[p6 as int]);
                }
            }
            return None;
        },
    };
    proof {
        assert forall|c0: ChunkRef, rest: Seq<u8>|
            data@.skip(pos as int) == chunkref_json(c0) + rest implies data@.skip(p7 as int) == lo
            + ((dec_u64(c0.offset as nat) + seq![125u8]) + rest) by {
            let t7 = (lo + (dec_u64(c0.offset as nat) + seq![125u8])) + rest;
            crate::jsonfmt::lemma_starts_with(data@, p6 as int, seq![44u8], t7);
            crate::jsonfmt::lemma_add_assoc(lo, dec_u64(c0.offset as nat) + seq![125u8], rest);
        }
    }
    let p8 = match crate::jsonfmt::expect(data, p7, "\"offset\":") {
        Some(p) => p,
        None => {
            proof {
                assert forall|c0: ChunkRef, rest: Seq<u8>|
                    data@.skip(pos as int) == chunkref_json(c0) + rest implies false by {
                    let t8 = (dec_u64(c0.offset as nat) + seq![125u8]) + rest;
                    crate::jsonfmt::lemma_starts_with(data@, p7 as int, lo, t8);
                }
            }
            return None;
        },
    };
    proof {
        assert forall|c0: ChunkRef, rest: Seq<u8>|
            data@.skip(pos as int) == chunkref_json(c0) + rest implies data@.skip(p8 as int)
            == dec_u64(c0.offset as nat) + (seq![125u8] + rest) by {
            let t8 = (dec_u64(c0.offset as nat) + seq![125u8]) + rest;
            crate::jsonfmt::lemma_starts_with(data@, p7 as int, lo, t8);
            crate::jsonfmt::lemma_add_assoc(dec_u64(c0.offset as nat), seq![125u8], rest);
        }
    }
    let (offset, p9) = match crate::jsonfmt::parse_u64(data, p8) {
        Some(t) => t,
        None => {
            proof {
                assert forall|c0: ChunkRef, rest: Seq<u8>|
                    data@.skip(pos as int) == chunkref_json(c0) + rest implies false by {
                    assert((seq![125u8] + rest)[0] == 125);
                }
            }
            return None;
        },
    };
    proof {
        assert forall|c0: ChunkRef, rest: Seq<u8>|
            data@.skip(pos as int) == chunkref_json(c0) + rest implies offset == c0.offset
            && data@.skip(p9 as int) == seq![125u8] + rest by {
            assert((seq![125u8] + rest)[0] == 125);
            crate::jsonfmt::lemma_starts_with(data@, p8 as int, dec_u64(c0.offset as nat),
                seq![125u8] + rest);
        }
    }
    let p10 = match crate::jsonfmt::expect_byte(data, p9, 125) {
        Some(p) => p,
        None => {
            proof {
                assert forall|c0: ChunkRef, rest: Seq<u8>|
                    data@.skip(pos as int) == chunkref_json(c0) + rest implies false by {
                    assert(data@.skip(p9 as int)[0] == data@[p9 as int]);
                }
            }
            return None;
        },
    };
    let hash = crate::crypto::to_array_32(hash_vec.as_slice());
    let c = ChunkRef { hash, length, offset };
    proof {
        assert(data@.subrange(pos as int, p0 as int) =~= seq![123u8]);
        assert(data@.subrange(p2 as int, p3 as int) =~= seq![93u8]);
        assert(data@.subrange(p3 as int, p4 as int) =~= seq![44u8]);
        assert(data@.subrange(p2 as int, p4 as int) =~= seq![93u8, 44u8]) by {
            crate::jsonfmt::lemma_subrange_compose(data@, p2 as int, p3 as int, p4 as int);
        }
        assert(data@.subrange(p6 as int, p7 as int) =~= seq![44u8]);
        assert(data@.subrange(p9 as int, p10 as int) =~= seq![125u8]);
        crate::index::lemma_cat9(
            data@,
            pos as int,
            p0 as int,
            p1 as int,
            p2 as int,
            p4 as int,
            p5 as int,
            p6 as int,
            p7 as int,
            p8 as int,
            p9 as int,
            p10 as int,
        );
        assert(data@.subrange(pos as int, p10 as int) =~= chunkref_json(c));
        assert forall|c0: ChunkRef, rest: Seq<u8>|
            data@.skip(pos as int) == chunkref_json(c0) + rest implies p10 == pos + chunkref_json(
            c0,
        ).len() by {
            crate::jsonfmt::lemma_starts_with(data@, p9 as int, seq![125u8], rest);
        }
    }
    Some((c, p10))
}


/// What follows chunk reference `k` in the emitted list.
pub open spec fn chunk_sep(s: Seq<ChunkRef>, k: int) -> Seq<u8> {
    if k + 1 < s.len() {
        seq![44u8] + chunks_json_from(s, k + 1)
    } else {
        Seq::empty()
    }
}

proof fn lemma_chunk_head(s: Seq<ChunkRef>, k: int)
    requires
        0 <= k < s.len(),
    ensures
        chunks_json_from(s, k).len() > 0,
        chunks_json_from(s, k)[0] == 123,
        chunks_json_from(s, k) == chunkref_json(s[k]) + chunk_sep(s, k),
{
    let e = chunkref_json(s[k]);
    assert(e[0] == 123) by {
        assert(e == seq![123u8] + (bytes_of_str("\"hash\":["@) + (nums_json(s[k].hash@, 0) + (
        seq![93u8, 44u8] + (bytes_of_str("\"length\":"@) + (dec_u64(s[k].length as nat) + (
        seq![44u8] + (bytes_of_str("\"offset\":"@) + (dec_u64(s[k].offset as nat)
            + seq![125u8])))))))));
    }
    assert(chunks_json_from(s, k)[0] == e[0]) by {
        assert(e.len() > 0);
    }
}

/// What follows member `k` in the emitted pair object.
pub open spec fn pair_sep(s: Seq<(String, String)>, k: int) -> Seq<u8> {
    if k + 1 < s.len() {
        seq![44u8] + pairs_json_from(s, k + 1)
    } else {
        Seq::empty()
    }
}

proof fn lemma_pair_head(s: Seq<(String, String)>, k: int)
    requires
        0 <= k < s.len(),
    ensures
        pairs_json_from(s, k).len() > 0,
        pairs_json_from(s, k)[0] == 34,
        pairs_json_from(s, k) == pair_json(s[k]) + pair_sep(s, k),
{
    let e = pair_json(s[k]);
    assert(e[0] == 34) by {
        assert(e == jstr(s[k].0@) + (seq![58u8] + jstr(s[k].1@)));
        crate::jsonfmt::lemma_jstr_head(s[k].0@, seq![58u8] + jstr(s[k].1@));
        assert(e[0] == (jstr(s[k].0@) + (seq![58u8] + jstr(s[k].1@)))[0]);
    }
    assert(pairs_json_from(s, k)[0] == e[0]) by {
        assert(e.len() > 0) by {
            crate::jsonfmt::lemma_jstr_head(s[k].0@, seq![58u8] + jstr(s[k].1@));
        }
    }
}

/// Every node's modified stamp, where present, is well formed.
pub open spec fn nodes_wf(s: Seq<TreeNode>) -> bool {
    forall|i: int|
        0 <= i < s.len() ==> ((#[trigger] s[i]).modified matches Some(t) ==> t.wf())
}

/// What follows node `k` in the emitted list.
pub open spec fn node_sep(s: Seq<TreeNode>, k: int) -> Seq<u8> {
    if k + 1 < s.len() {
        seq![44u8] + nodes_json_from(s, k + 1)
    } else {
        Seq::empty()
    }
}

proof fn lemma_node_head(s: Seq<TreeNode>, k: int)
    requires
        0 <= k < s.len(),
    ensures
        nodes_json_from(s, k).len() > 0,
        nodes_json_from(s, k)[0] == 123,
        nodes_json_from(s, k) == node_json(s[k]) + node_sep(s, k),
{
    reveal_strlit("{\"path\":");
    assert(vstd::utf8::is_ascii_chars("{\"path\":"@));
    crate::jsonfmt::lemma_str_bytes_ascii("{\"path\":");
    let e = node_json(s[k]);
    assert(bytes_of_str("{\"path\":"@).len() == 8);
    assert(bytes_of_str("{\"path\":"@)[0] == 123);
    assert(e[0] == 123) by {
        assert(e[0] == bytes_of_str("{\"path\":"@)[0]);
    }
    assert(nodes_json_from(s, k)[0] == e[0]) by {
        assert(e.len() > 0);
    }
}

/// Parses the elements of a chunk array and its closing bracket: exact in
/// both directions.
#[verifier::loop_isolation(false)]
#[verifier::spinoff_prover]
#[verifier::rlimit(100)]
fn parse_chunks_arr(data: &Vec<u8>, pos: usize) -> (r: Option<(Vec<ChunkRef>, usize)>)
    requires
        pos <= data@.len(),
    ensures
        r matches Some((v, p)) ==> pos < p <= data@.len() && data@.subrange(pos as int, p as int)
            == chunks_json_from(v@, 0) + seq![93u8],
        forall|s0: Seq<ChunkRef>, rest: Seq<u8>|
            #![trigger chunks_json_from(s0, 0) + (seq![93u8] + rest)]
            data@.skip(pos as int) == chunks_json_from(s0, 0) + (seq![93u8] + rest) ==> (r matches
                Some((v, p)) && v@.len() == s0.len() && (forall|m: int|
                0 <= m < s0.len() ==> chunkref_matches(#[trigger] v@[m], s0[m])) && p == pos
                + chunks_json_from(s0, 0).len() + 1 && data@.skip(p as int) == rest),
{
    let mut v: Vec<ChunkRef> = Vec::new();
    let mut cur = pos;
    let mut first = true;
    proof {
        assert(data@.subrange(pos as int, pos as int) =~= chunks_json_from(v@, 0));
    }
    loop
        invariant
            pos <= cur <= data@.len(),
            first <==> v@.len() == 0,
            first ==> cur == pos,
            data@.subrange(pos as int, cur as int) == chunks_json_from(v@, 0),
            forall|s0: Seq<ChunkRef>, rest: Seq<u8>|
                #![trigger chunks_json_from(s0, 0) + (seq![93u8] + rest)]
                data@.skip(pos as int) == chunks_json_from(s0, 0) + (seq![93u8] + rest) ==> {
                    let k = v@.len() as int;
                    &&& k <= s0.len()
                    &&& (forall|m: int|
                        0 <= m < k ==> chunkref_matches(#[trigger] v@[m], s0[m]))
                    &&& (k == s0.len() ==> data@.skip(cur as int) == seq![93u8] + rest)
                    &&& (k < s0.len() && k == 0 ==> data@.skip(cur as int) == chunks_json_from(
                        s0,
                        0,
                    ) + (seq![93u8] + rest))
                    &&& (k < s0.len() && k > 0 ==> data@.skip(cur as int) == seq![44u8] + (
                    chunks_json_from(s0, k) + (seq![93u8] + rest)))
                },
        decreases data@.len() - cur,
    {
        let ghost k0 = v@.len() as int;
        if cur >= data.len() {
            proof {
                assert forall|s0: Seq<ChunkRef>, rest: Seq<u8>|
                    data@.skip(pos as int) == chunks_json_from(s0, 0) + (seq![93u8] + rest)
                    implies false by {
                    assert(data@.skip(cur as int).len() == 0);
                    if k0 < s0.len() {
                        lemma_chunk_head(s0, k0);
                    }
                }
            }
            return None;
        }
        proof {
            assert forall|s0: Seq<ChunkRef>, rest: Seq<u8>|
                data@.skip(pos as int) == chunks_json_from(s0, 0) + (seq![93u8] + rest) && k0
                < s0.len() implies data@.skip(cur as int)[0] != 93 by {
                lemma_chunk_head(s0, k0);
                if k0 == 0 {
                    assert((chunks_json_from(s0, 0) + (seq![93u8] + rest))[0] == chunks_json_from(
                        s0,
                        0,
                    )[0]);
                } else {
                    assert((seq![44u8] + (chunks_json_from(s0, k0) + (seq![93u8] + rest)))[0]
                        == 44);
                }
            }
        }
        if data[cur] == 93 {
            proof {
                assert(data@.subrange(cur as int, cur + 1) =~= seq![93u8]);
                crate::jsonfmt::lemma_subrange_compose(data@, pos as int, cur as int, cur + 1);
                assert forall|s0: Seq<ChunkRef>, rest: Seq<u8>|
                    data@.skip(pos as int) == chunks_json_from(s0, 0) + (seq![93u8] + rest)
                    implies v@.len() == s0.len() && (forall|m: int|
                    0 <= m < s0.len() ==> chunkref_matches(#[trigger] v@[m], s0[m])) && cur + 1
                    == pos + chunks_json_from(s0, 0).len() + 1 && data@.skip(cur + 1) == rest by {
                    assert(data@.skip(cur as int)[0] == data@[cur as int]);
                    assert(v@.len() == s0.len());
                    crate::jsonfmt::lemma_starts_with(data@, cur as int, seq![93u8], rest);
                    assert((chunks_json_from(s0, 0) + (seq![93u8] + rest)).len()
                        == chunks_json_from(s0, 0).len() + 1 + rest.len());
                    assert(data@.skip(pos as int).len() == data@.len() - pos);
                }
            }
            return Some((v, cur + 1));
        }
        proof {
            assert forall|s0: Seq<ChunkRef>, rest: Seq<u8>|
                data@.skip(pos as int) == chunks_json_from(s0, 0) + (seq![93u8] + rest)
                implies k0 < s0.len() && data@.skip(cur as int).skip(
                if k0 > 0 {
                    1int
                } else {
                    0int
                },
            ) == chunks_json_from(s0, k0) + (seq![93u8] + rest) by {
                if k0 == s0.len() {
                    assert(data@.skip(cur as int)[0] == data@[cur as int]);
                    assert(data@.skip(cur as int) == seq![93u8] + rest);
                    assert((seq![93u8] + rest)[0] == 93);
                }
                if k0 > 0 {
                    crate::jsonfmt::lemma_starts_with(
                        data@,
                        cur as int,
                        seq![44u8],
                        chunks_json_from(s0, k0) + (seq![93u8] + rest),
                    );
                    assert(data@.skip(cur as int).skip(1int) =~= data@.skip(cur + 1));
                    assert(data@.skip(cur + 1) == chunks_json_from(s0, k0) + (seq![93u8] + rest));
                } else {
                    assert(data@.skip(cur as int).skip(0int) =~= data@.skip(cur as int));
                }
            }
        }
        let pstart = if first {
            cur
        } else {
            match crate::jsonfmt::expect_byte(data, cur, 44) {
                Some(p) => p,
                None => {
                    proof {
                        assert forall|s0: Seq<ChunkRef>, rest: Seq<u8>|
                            data@.skip(pos as int) == chunks_json_from(s0, 0) + (seq![93u8]
                                + rest) implies false by {
                            assert(data@.skip(cur as int)[0] == data@[cur as int]);
                        }
                    }
                    return None;
                },
            }
        };
        proof {
            assert forall|s0: Seq<ChunkRef>, rest: Seq<u8>|
                data@.skip(pos as int) == chunks_json_from(s0, 0) + (seq![93u8] + rest)
                implies data@.skip(pstart as int) == chunkref_json(s0[k0]) + (chunk_sep(s0, k0)
                + (seq![93u8] + rest)) by {
                assert(data@.skip(pstart as int) == chunks_json_from(s0, k0) + (seq![93u8]
                    + rest)) by {
                    if k0 > 0 {
                        assert(data@.skip(cur as int).skip(1int) =~= data@.skip(pstart as int));
                    } else {
                        assert(data@.skip(cur as int).skip(0int) =~= data@.skip(pstart as int));
                    }
                }
                lemma_chunk_head(s0, k0);
                crate::jsonfmt::lemma_add_assoc(chunkref_json(s0[k0]), chunk_sep(s0, k0),
                    seq![93u8] + rest);
            }
        }
        let (c, q) = match parse_chunkref(data, pstart) {
            Some(t) => t,
            None => {
                proof {
                    assert forall|s0: Seq<ChunkRef>, rest: Seq<u8>|
                        data@.skip(pos as int) == chunks_json_from(s0, 0) + (seq![93u8] + rest)
                        implies false by {
                        assert(data@.skip(pstart as int) == chunkref_json(s0[k0]) + (chunk_sep(
                            s0,
                            k0,
                        ) + (seq![93u8] + rest)));
                    }
                }
                return None;
            },
        };
        let ghost ov = v@;
        v.push(c);
        proof {
            assert(v@.take(ov.len() as int) =~= ov);
            assert(v@.take(v@.len() as int) =~= v@);
            lemma_chunks_json_snoc(v@, ov.len() as int);
            if first {
                assert(data@.subrange(pos as int, q as int) =~= chunks_json_from(v@, 0));
            } else {
                crate::jsonfmt::lemma_subrange_compose(data@, pos as int, cur as int, q as int);
                crate::jsonfmt::lemma_subrange_compose(data@, cur as int, pstart as int, q as int);
                assert(data@.subrange(cur as int, pstart as int) =~= seq![44u8]);
                assert(data@.subrange(pos as int, q as int) =~= chunks_json_from(v@, 0));
            }
            assert forall|s0: Seq<ChunkRef>, rest: Seq<u8>|
                data@.skip(pos as int) == chunks_json_from(s0, 0) + (seq![93u8] + rest) implies {
                let k = v@.len() as int;
                &&& k <= s0.len()
                &&& (forall|m: int| 0 <= m < k ==> chunkref_matches(#[trigger] v@[m], s0[m]))
                &&& (k == s0.len() ==> data@.skip(q as int) == seq![93u8] + rest)
                &&& (k < s0.len() && k > 0 ==> data@.skip(q as int) == seq![44u8] + (
                chunks_json_from(s0, k) + (seq![93u8] + rest)))
            } by {
                crate::jsonfmt::lemma_starts_with(
                    data@,
                    pstart as int,
                    chunkref_json(s0[k0]),
                    chunk_sep(s0, k0) + (seq![93u8] + rest),
                );
                assert(data@.skip(q as int) == chunk_sep(s0, k0) + (seq![93u8] + rest));
                let k = v@.len() as int;
                assert(k == k0 + 1);
                assert(forall|m: int| 0 <= m < k0 ==> (#[trigger] v@[m]) == ov[m]);
                if k == s0.len() {
                    assert(chunk_sep(s0, k0) =~= Seq::<u8>::empty());
                    assert(Seq::<u8>::empty() + (seq![93u8] + rest) =~= seq![93u8] + rest);
                } else {
                    assert(chunk_sep(s0, k0) == seq![44u8] + chunks_json_from(s0, k));
                    crate::jsonfmt::lemma_add_assoc(
                        seq![44u8],
                        chunks_json_from(s0, k),
                        seq![93u8] + rest,
                    );
                }
            }
        }
        cur = q;
        first = false;
    }
}

/// Parses a whole string-to-string object at `pos`: exact in both
/// directions.
#[verifier::loop_isolation(false)]
#[verifier::spinoff_prover]
#[verifier::rlimit(100)]
fn parse_pairs_obj(data: &Vec<u8>, pos: usize) -> (r: Option<(Vec<(String, String)>, usize)>)
    requires
        pos <= data@.len(),
    ensures
        r matches Some((v, p)) ==> pos < p <= data@.len() && data@.subrange(pos as int, p as int)
            == pairs_obj_json(v@),
        forall|s0: Seq<(String, String)>, rest: Seq<u8>|
            #![trigger pairs_obj_json(s0) + rest]
            data@.skip(pos as int) == pairs_obj_json(s0) + rest ==> (r matches Some((v, p))
                && pairs_match(v@, s0) && p == pos + pairs_obj_json(s0).len() && data@.skip(
                p as int,
            ) == rest),
{
    let p0 = match crate::jsonfmt::expect_byte(data, pos, 123) {
        Some(p) => p,
        None => {
            proof {
                assert forall|s0: Seq<(String, String)>, rest: Seq<u8>|
                    data@.skip(pos as int) == pairs_obj_json(s0) + rest implies false by {
                    crate::jsonfmt::lemma_add_assoc(
                        seq![123u8],
                        pairs_json_from(s0, 0) + seq![125u8],
                        rest,
                    );
                    crate::jsonfmt::lemma_starts_with(
                        data@,
                        pos as int,
                        seq![123u8],
                        (pairs_json_from(s0, 0) + seq![125u8]) + rest,
                    );
                    assert(data@.skip(pos as int)[0] == data@[pos as int]);
                }
            }
            return None;
        },
    };
    proof {
        assert forall|s0: Seq<(String, String)>, rest: Seq<u8>|
            data@.skip(pos as int) == pairs_obj_json(s0) + rest implies data@.skip(p0 as int)
            == pairs_json_from(s0, 0) + (seq![125u8] + rest) by {
            crate::jsonfmt::lemma_add_assoc(
                seq![123u8],
                pairs_json_from(s0, 0) + seq![125u8],
                rest,
            );
            crate::jsonfmt::lemma_starts_with(
                data@,
                pos as int,
                seq![123u8],
                (pairs_json_from(s0, 0) + seq![125u8]) + rest,
            );
            crate::jsonfmt::lemma_add_assoc(pairs_json_from(s0, 0), seq![125u8], rest);
        }
    }
    let mut v: Vec<(String, String)> = Vec::new();
    let mut cur = p0;
    let mut first = true;
    proof {
        assert(data@.subrange(p0 as int, p0 as int) =~= pairs_json_from(v@, 0));
    }
    loop
        invariant
            pos < p0 <= cur <= data@.len(),
            p0 == pos + 1,
            data@[pos as int] == 123,
            first <==> v@.len() == 0,
            first ==> cur == p0,
            data@.subrange(p0 as int, cur as int) == pairs_json_from(v@, 0),
            forall|s0: Seq<(String, String)>, rest: Seq<u8>|
                #![trigger pairs_obj_json(s0) + rest]
                data@.skip(pos as int) == pairs_obj_json(s0) + rest ==> {
                    let k = v@.len() as int;
                    &&& k <= s0.len()
                    &&& pairs_match(v@, s0.take(k))
                    &&& (k == s0.len() ==> data@.skip(cur as int) == seq![125u8] + rest)
                    &&& (k < s0.len() && k == 0 ==> data@.skip(cur as int) == pairs_json_from(
                        s0,
                        0,
                    ) + (seq![125u8] + rest))
                    &&& (k < s0.len() && k > 0 ==> data@.skip(cur as int) == seq![44u8] + (
                    pairs_json_from(s0, k) + (seq![125u8] + rest)))
                },
        decreases data@.len() - cur,
    {
        let ghost k0 = v@.len() as int;
        if cur >= data.len() {
            proof {
                assert forall|s0: Seq<(String, String)>, rest: Seq<u8>|
                    data@.skip(pos as int) == pairs_obj_json(s0) + rest implies false by {
                    assert(data@.skip(cur as int).len() == 0);
                    if k0 < s0.len() {
                        lemma_pair_head(s0, k0);
                    }
                }
            }
            return None;
        }
        proof {
            assert forall|s0: Seq<(String, String)>, rest: Seq<u8>|
                data@.skip(pos as int) == pairs_obj_json(s0) + rest && k0 < s0.len()
                implies data@.skip(cur as int)[0] != 125 by {
                lemma_pair_head(s0, k0);
                if k0 == 0 {
                    assert((pairs_json_from(s0, 0) + (seq![125u8] + rest))[0] == pairs_json_from(
                        s0,
                        0,
                    )[0]);
                } else {
                    assert((seq![44u8] + (pairs_json_from(s0, k0) + (seq![125u8] + rest)))[0]
                        == 44);
                }
            }
        }
        if data[cur] == 125 {
            proof {
                assert(data@.subrange(pos as int, pos + 1) =~= seq![123u8]);
                assert(data@.subrange(cur as int, cur + 1) =~= seq![125u8]);
                crate::jsonfmt::lemma_subrange_compose(data@, p0 as int, cur as int, cur + 1);
                crate::jsonfmt::lemma_subrange_compose(data@, pos as int, p0 as int, cur + 1);
                assert(data@.subrange(pos as int, cur + 1) =~= pairs_obj_json(v@));
                assert forall|s0: Seq<(String, String)>, rest: Seq<u8>|
                    data@.skip(pos as int) == pairs_obj_json(s0) + rest implies pairs_match(
                    v@,
                    s0,
                ) && cur + 1 == pos + pairs_obj_json(s0).len() && data@.skip(cur + 1) == rest by {
                    assert(data@.skip(cur as int)[0] == data@[cur as int]);
                    assert(v@.len() == s0.len());
                    assert(s0.take(s0.len() as int) =~= s0);
                    crate::jsonfmt::lemma_starts_with(data@, cur as int, seq![125u8], rest);
                    assert((pairs_obj_json(s0) + rest).len() == pairs_obj_json(s0).len()
                        + rest.len());
                    assert(data@.skip(pos as int).len() == data@.len() - pos);
                }
            }
            return Some((v, cur + 1));
        }
        proof {
            assert forall|s0: Seq<(String, String)>, rest: Seq<u8>|
                data@.skip(pos as int) == pairs_obj_json(s0) + rest implies k0 < s0.len()
                && data@.skip(cur as int).skip(
                if k0 > 0 {
                    1int
                } else {
                    0int
                },
            ) == pairs_json_from(s0, k0) + (seq![125u8] + rest) by {
                if k0 == s0.len() {
                    assert(data@.skip(cur as int)[0] == data@[cur as int]);
                    assert(data@.skip(cur as int) == seq![125u8] + rest);
                    assert((seq![125u8] + rest)[0] == 125);
                }
                if k0 > 0 {
                    crate::jsonfmt::lemma_starts_with(
                        data@,
                        cur as int,
                        seq![44u8],
                        pairs_json_from(s0, k0) + (seq![125u8] + rest),
                    );
                    assert(data@.skip(cur as int).skip(1int) =~= data@.skip(cur + 1));
                    assert(data@.skip(cur + 1) == pairs_json_from(s0, k0) + (seq![125u8] + rest));
                } else {
                    assert(data@.skip(cur as int).skip(0int) =~= data@.skip(cur as int));
                }
            }
        }
        let pstart = if first {
            cur
        } else {
            match crate::jsonfmt::expect_byte(data, cur, 44) {
                Some(p) => p,
                None => {
                    proof {
                        assert forall|s0: Seq<(String, String)>, rest: Seq<u8>|
                            data@.skip(pos as int) == pairs_obj_json(s0) + rest implies false by {
                            assert(data@.skip(cur as int)[0] == data@[cur as int]);
                        }
                    }
                    return None;
                },
            }
        };
        proof {
            assert forall|s0: Seq<(String, String)>, rest: Seq<u8>|
                data@.skip(pos as int) == pairs_obj_json(s0) + rest implies data@.skip(
                pstart as int,
            ) == jstr(s0[k0].0@) + ((seq![58u8] + jstr(s0[k0].1@)) + (pair_sep(s0, k0) + (
            seq![125u8] + rest))) by {
                assert(data@.skip(pstart as int) == pairs_json_from(s0, k0) + (seq![125u8]
                    + rest)) by {
                    if k0 > 0 {
                        assert(data@.skip(cur as int).skip(1int) =~= data@.skip(pstart as int));
                    } else {
                        assert(data@.skip(cur as int).skip(0int) =~= data@.skip(pstart as int));
                    }
                }
                lemma_pair_head(s0, k0);
                crate::jsonfmt::lemma_add_assoc(pair_json(s0[k0]), pair_sep(s0, k0), seq![125u8]
                    + rest);
                crate::jsonfmt::lemma_add_assoc(
                    jstr(s0[k0].0@),
                    seq![58u8] + jstr(s0[k0].1@),
                    pair_sep(s0, k0) + (seq![125u8] + rest),
                );
            }
        }
        let (key, q1) = match crate::jsonfmt::parse_string(data, pstart) {
            Some(t) => t,
            None => {
                proof {
                    assert forall|s0: Seq<(String, String)>, rest: Seq<u8>|
                        data@.skip(pos as int) == pairs_obj_json(s0) + rest implies false by {
                        assert(data@.skip(pstart as int) == jstr(s0[k0].0@) + ((seq![58u8] + jstr(
                            s0[k0].1@,
                        )) + (pair_sep(s0, k0) + (seq![125u8] + rest))));
                    }
                }
                return None;
            },
        };
        proof {
            assert forall|s0: Seq<(String, String)>, rest: Seq<u8>|
                data@.skip(pos as int) == pairs_obj_json(s0) + rest implies key@ == s0[k0].0@
                && data@.skip(q1 as int) == seq![58u8] + (jstr(s0[k0].1@) + (pair_sep(s0, k0) + (
            seq![125u8] + rest))) by {
                crate::jsonfmt::lemma_starts_with(
                    data@,
                    pstart as int,
                    jstr(s0[k0].0@),
                    (seq![58u8] + jstr(s0[k0].1@)) + (pair_sep(s0, k0) + (seq![125u8] + rest)),
                );
                crate::jsonfmt::lemma_add_assoc(
                    seq![58u8],
                    jstr(s0[k0].1@),
                    pair_sep(s0, k0) + (seq![125u8] + rest),
                );
            }
        }
        let q2 = match crate::jsonfmt::expect_byte(data, q1, 58) {
            Some(p) => p,
            None => {
                proof {
                    assert forall|s0: Seq<(String, String)>, rest: Seq<u8>|
                        data@.skip(pos as int) == pairs_obj_json(s0) + rest implies false by {
                        assert(data@.skip(q1 as int)[0] == data@[q1 as int]);
                    }
                }
                return None;
            },
        };
        proof {
            assert forall|s0: Seq<(String, String)>, rest: Seq<u8>|
                data@.skip(pos as int) == pairs_obj_json(s0) + rest implies data@.skip(q2 as int)
                == jstr(s0[k0].1@) + (pair_sep(s0, k0) + (seq![125u8] + rest)) by {
                crate::jsonfmt::lemma_starts_with(
                    data@,
                    q1 as int,
                    seq![58u8],
                    jstr(s0[k0].1@) + (pair_sep(s0, k0) + (seq![125u8] + rest)),
                );
            }
        }
        let (val, q3) = match crate::jsonfmt::parse_string(data, q2) {
            Some(t) => t,
            None => {
                proof {
                    assert forall|s0: Seq<(String, String)>, rest: Seq<u8>|
                        data@.skip(pos as int) == pairs_obj_json(s0) + rest implies false by {
                        assert(data@.skip(q2 as int) == jstr(s0[k0].1@) + (pair_sep(s0, k0) + (
                        seq![125u8] + rest)));
                    }
                }
                return None;
            },
        };
        let ghost ov = v@;
        let ghost gpair = (key, val);
        v.push((key, val));
        proof {
            assert(v@.take(ov.len() as int) =~= ov);
            assert(v@.take(v@.len() as int) =~= v@);
            lemma_pairs_json_snoc(v@, ov.len() as int);
            assert(data@.subrange(q1 as int, q2 as int) =~= seq![58u8]);
            crate::jsonfmt::lemma_subrange_compose(data@, pstart as int, q1 as int, q3 as int);
            crate::jsonfmt::lemma_subrange_compose(data@, q1 as int, q2 as int, q3 as int);
            assert(data@.subrange(pstart as int, q3 as int) =~= pair_json(gpair));
            if first {
                assert(data@.subrange(p0 as int, q3 as int) =~= pairs_json_from(v@, 0));
            } else {
                crate::jsonfmt::lemma_subrange_compose(data@, p0 as int, cur as int, q3 as int);
                crate::jsonfmt::lemma_subrange_compose(data@, cur as int, pstart as int, q3 as int);
                assert(data@.subrange(cur as int, pstart as int) =~= seq![44u8]);
                assert(data@.subrange(p0 as int, q3 as int) =~= pairs_json_from(v@, 0));
            }
            assert forall|s0: Seq<(String, String)>, rest: Seq<u8>|
                data@.skip(pos as int) == pairs_obj_json(s0) + rest implies {
                let k = v@.len() as int;
                &&& k <= s0.len()
                &&& pairs_match(v@, s0.take(k))
                &&& (k == s0.len() ==> data@.skip(q3 as int) == seq![125u8] + rest)
                &&& (k < s0.len() && k > 0 ==> data@.skip(q3 as int) == seq![44u8] + (
                pairs_json_from(s0, k) + (seq![125u8] + rest)))
            } by {
                crate::jsonfmt::lemma_starts_with(
                    data@,
                    q2 as int,
                    jstr(s0[k0].1@),
                    pair_sep(s0, k0) + (seq![125u8] + rest),
                );
                assert(data@.skip(q3 as int) == pair_sep(s0, k0) + (seq![125u8] + rest));
                let k = v@.len() as int;
                assert(k == k0 + 1);
                assert(pairs_match(v@, s0.take(k))) by {
                    assert(forall|m: int| 0 <= m < k0 ==> (#[trigger] v@[m]) == ov[m]);
                    assert(forall|m: int| 0 <= m <= k0 ==> s0.take(k)[m] == s0[m]);
                    assert(forall|m: int| 0 <= m < k0 ==> s0.take(k0)[m] == s0[m]);
                }
                if k == s0.len() {
                    assert(pair_sep(s0, k0) =~= Seq::<u8>::empty());
                    assert(Seq::<u8>::empty() + (seq![125u8] + rest) =~= seq![125u8] + rest);
                } else {
                    assert(pair_sep(s0, k0) == seq![44u8] + pairs_json_from(s0, k));
                    crate::jsonfmt::lemma_add_assoc(
                        seq![44u8],
                        pairs_json_from(s0, k),
                        seq![125u8] + rest,
                    );
                }
            }
        }
        cur = q3;
        first = false;
    }
}

/// Parses one `"name":<number><sep>` run: exact in both directions.
#[verifier::loop_isolation(false)]
#[verifier::rlimit(100)]
fn parse_stat_field(data: &Vec<u8>, pos: usize, lit: &str, border: u8) -> (r: Option<(
    u64,
    usize,
)>)
    requires
        pos <= data@.len(),
    ensures
        r matches Some((n, p)) ==> pos < p <= data@.len() && data@.subrange(pos as int, p as int)
            == vstd::string::StringSliceAdditionalSpecFns::spec_bytes(lit) + (dec_u64(n as nat)
            + seq![border]),
        forall|n0: u64, rest: Seq<u8>|
            #![trigger dec_u64(n0 as nat) + (seq![border] + rest)]
            data@.skip(pos as int) == vstd::string::StringSliceAdditionalSpecFns::spec_bytes(lit)
                + (dec_u64(n0 as nat) + (seq![border] + rest)) && !crate::jsonfmt::is_digit(
                border,
            ) ==> (r matches Some((n, p)) && n == n0 && data@.skip(p as int) == rest && p == pos
                + vstd::string::StringSliceAdditionalSpecFns::spec_bytes(lit).len() + dec_u64(
                n0 as nat,
            ).len() + 1),
{
    let ghost lb = vstd::string::StringSliceAdditionalSpecFns::spec_bytes(lit);
    let p0 = match crate::jsonfmt::expect(data, pos, lit) {
        Some(p) => p,
        None => {
            proof {
                assert forall|n0: u64, rest: Seq<u8>|
                    data@.skip(pos as int) == lb + (dec_u64(n0 as nat) + (seq![border] + rest))
                        && !crate::jsonfmt::is_digit(border) implies false by {
                    crate::jsonfmt::lemma_starts_with(
                        data@,
                        pos as int,
                        lb,
                        dec_u64(n0 as nat) + (seq![border] + rest),
                    );
                }
            }
            return None;
        },
    };
    proof {
        assert forall|n0: u64, rest: Seq<u8>|
            data@.skip(pos as int) == lb + (dec_u64(n0 as nat) + (seq![border] + rest))
                && !crate::jsonfmt::is_digit(border) implies data@.skip(p0 as int) == dec_u64(
            n0 as nat,
        ) + (seq![border] + rest) by {
            crate::jsonfmt::lemma_starts_with(
                data@,
                pos as int,
                lb,
                dec_u64(n0 as nat) + (seq![border] + rest),
            );
        }
    }
    let (n, p1) = match crate::jsonfmt::parse_u64(data, p0) {
        Some(t) => t,
        None => {
            proof {
                assert forall|n0: u64, rest: Seq<u8>|
                    data@.skip(pos as int) == lb + (dec_u64(n0 as nat) + (seq![border] + rest))
                        && !crate::jsonfmt::is_digit(border) implies false by {
                    assert((seq![border] + rest)[0] == border);
                }
            }
            return None;
        },
    };
    proof {
        assert forall|n0: u64, rest: Seq<u8>|
            data@.skip(pos as int) == lb + (dec_u64(n0 as nat) + (seq![border] + rest))
                && !crate::jsonfmt::is_digit(border) implies n == n0 && data@.skip(p1 as int)
            == seq![border] + rest by {
            assert((seq![border] + rest)[0] == border);
            crate::jsonfmt::lemma_starts_with(
                data@,
                p0 as int,
                dec_u64(n0 as nat),
                seq![border] + rest,
            );
        }
    }
    let p2 = match crate::jsonfmt::expect_byte(data, p1, border) {
        Some(p) => p,
        None => {
            proof {
                assert forall|n0: u64, rest: Seq<u8>|
                    data@.skip(pos as int) == lb + (dec_u64(n0 as nat) + (seq![border] + rest))
                        && !crate::jsonfmt::is_digit(border) implies false by {
                    assert(data@.skip(p1 as int)[0] == data@[p1 as int]);
                }
            }
            return None;
        },
    };
    proof {
        assert(data@.subrange(p1 as int, p2 as int) =~= seq![border]);
        crate::jsonfmt::lemma_subrange_compose(data@, pos as int, p0 as int, p1 as int);
        crate::jsonfmt::lemma_subrange_compose(data@, pos as int, p1 as int, p2 as int);
        assert(data@.subrange(pos as int, p2 as int) == lb + (dec_u64(n as nat) + seq![border]))
            by {
            assert(data@.subrange(pos as int, p2 as int) =~= (lb + dec_u64(n as nat))
                + seq![border]);
            crate::jsonfmt::lemma_add_assoc(lb, dec_u64(n as nat), seq![border]);
        }
        assert forall|n0: u64, rest: Seq<u8>|
            data@.skip(pos as int) == lb + (dec_u64(n0 as nat) + (seq![border] + rest))
                && !crate::jsonfmt::is_digit(border) implies data@.skip(p2 as int) == rest by {
            crate::jsonfmt::lemma_starts_with(data@, p1 as int, seq![border], rest);
        }
    }
    Some((n, p2))
}

/// The fully right-nested form of a statistics text with a continuation.
#[verifier::spinoff_prover]
#[verifier::rlimit(100)]
proof fn lemma_stats_chain(st: BackupStats, rest: Seq<u8>)
    ensures
        stats_json(st) + rest == vstd::string::StringSliceAdditionalSpecFns::spec_bytes("{\"total_items\":") + (dec_u64(st.total_items as nat) + (seq![44u8] + (vstd::string::StringSliceAdditionalSpecFns::spec_bytes("\"new_items\":") + (dec_u64(st.new_items as nat) + (seq![44u8] + (vstd::string::StringSliceAdditionalSpecFns::spec_bytes("\"unchanged_items\":") + (dec_u64(st.unchanged_items as nat) + (seq![44u8] + (vstd::string::StringSliceAdditionalSpecFns::spec_bytes("\"total_bytes\":") + (dec_u64(st.total_bytes as nat) + (seq![44u8] + (vstd::string::StringSliceAdditionalSpecFns::spec_bytes("\"new_bytes\":") + (dec_u64(st.new_bytes as nat) + (seq![44u8] + (vstd::string::StringSliceAdditionalSpecFns::spec_bytes("\"deduplicated_bytes\":") + (dec_u64(st.deduplicated_bytes as nat) + (seq![44u8] + (vstd::string::StringSliceAdditionalSpecFns::spec_bytes("\"duration_secs\":") + (dec_u64(st.duration_secs as nat) + (seq![125u8] + rest)))))))))))))))))))),
{
    crate::jsonfmt::lemma_add_assoc(vstd::string::StringSliceAdditionalSpecFns::spec_bytes("{\"total_items\":") + dec_u64(st.total_items as nat) + seq![44u8] + vstd::string::StringSliceAdditionalSpecFns::spec_bytes("\"new_items\":") + dec_u64(st.new_items as nat) + seq![44u8] + vstd::string::StringSliceAdditionalSpecFns::spec_bytes("\"unchanged_items\":") + dec_u64(st.unchanged_items as nat) + seq![44u8] + vstd::string::StringSliceAdditionalSpecFns::spec_bytes("\"total_bytes\":") + dec_u64(st.total_bytes as nat) + seq![44u8] + vstd::string::StringSliceAdditionalSpecFns::spec_bytes("\"new_bytes\":") + dec_u64(st.new_bytes as nat) + seq![44u8] + vstd::string::StringSliceAdditionalSpecFns::spec_bytes("\"deduplicated_bytes\":") + dec_u64(st.deduplicated_bytes as nat) + seq![44u8] + vstd::string::StringSliceAdditionalSpecFns::spec_bytes("\"duration_secs\":") + dec_u64(st.duration_secs as nat), seq![125u8], rest);
    crate::jsonfmt::lemma_add_assoc(vstd::string::StringSliceAdditionalSpecFns::spec_bytes("{\"total_items\":") + dec_u64(st.total_items as nat) + seq![44u8] + vstd::string::StringSliceAdditionalSpecFns::spec_bytes("\"new_items\":") + dec_u64(st.new_items as nat) + seq![44u8] + vstd::string::StringSliceAdditionalSpecFns::spec_bytes("\"unchanged_items\":") + dec_u64(st.unchanged_items as nat) + seq![44u8] + vstd::string::StringSliceAdditionalSpecFns::spec_bytes("\"total_bytes\":") + dec_u64(st.total_bytes as nat) + seq![44u8] + vstd::string::StringSliceAdditionalSpecFns::spec_bytes("\"new_bytes\":") + dec_u64(st.new_bytes as nat) + seq![44u8] + vstd::string::StringSliceAdditionalSpecFns::spec_bytes("\"deduplicated_bytes\":") + dec_u64(st.deduplicated_bytes as nat) + seq![44u8] + vstd::string::StringSliceAdditionalSpecFns::spec_bytes("\"duration_secs\":"), dec_u64(st.duration_secs as nat), seq![125u8] + rest);
    crate::jsonfmt::lemma_add_assoc(vstd::string::StringSliceAdditionalSpecFns::spec_bytes("{\"total_items\":") + dec_u64(st.total_items as nat) + seq![44u8] + vstd::string::StringSliceAdditionalSpecFns::spec_bytes("\"new_items\":") + dec_u64(st.new_items as nat) + seq![44u8] + vstd::string::StringSliceAdditionalSpecFns::spec_bytes("\"unchanged_items\":") + dec_u64(st.unchanged_items as nat) + seq![44u8] + vstd::string::StringSliceAdditionalSpecFns::spec_bytes("\"total_bytes\":") + dec_u64(st.total_bytes as nat) + seq![44u8] + vstd::string::StringSliceAdditionalSpecFns::spec_bytes("\"new_bytes\":") + dec_u64(st.new_bytes as nat) + seq![44u8] + vstd::string::StringSliceAdditionalSpecFns::spec_bytes("\"deduplicated_bytes\":") + dec_u64(st.deduplicated_bytes as nat) + seq![44u8], vstd::string::StringSliceAdditionalSpecFns::spec_bytes("\"duration_secs\":"), dec_u64(st.duration_secs as nat) + (seq![125u8] + rest));
    crate::jsonfmt::lemma_add_assoc(vstd::string::StringSliceAdditionalSpecFns::spec_bytes("{\"total_items\":") + dec_u64(st.total_items as nat) + seq![44u8] + vstd::string::StringSliceAdditionalSpecFns::spec_bytes("\"new_items\":") + dec_u64(st.new_items as nat) + seq![44u8] + vstd::string::StringSliceAdditionalSpecFns::spec_bytes("\"unchanged_items\":") + dec_u64(st.unchanged_items as nat) + seq![44u8] + vstd::string::StringSliceAdditionalSpecFns::spec_bytes("\"total_bytes\":") + dec_u64(st.total_bytes as nat) + seq![44u8] + vstd::string::StringSliceAdditionalSpecFns::spec_bytes("\"new_bytes\":") + dec_u64(st.new_bytes as nat) + seq![44u8] + vstd::string::StringSliceAdditionalSpecFns::spec_bytes("\"deduplicated_bytes\":") + dec_u64(st.deduplicated_bytes as nat), seq![44u8], vstd::string::StringSliceAdditionalSpecFns::spec_bytes("\"duration_secs\":") + (dec_u64(st.duration_secs as nat) + (seq![125u8] + rest)));
    crate::jsonfmt::lemma_add_assoc(vstd::string::StringSliceAdditionalSpecFns::spec_bytes("{\"total_items\":") + dec_u64(st.total_items as nat) + seq![44u8] + vstd::string::StringSliceAdditionalSpecFns::spec_bytes("\"new_items\":") + dec_u64(st.new_items as nat) + seq![44u8] + vstd::string::StringSliceAdditionalSpecFns::spec_bytes("\"unchanged_items\":") + dec_u64(st.unchanged_items as nat) + seq![44u8] + vstd::string::StringSliceAdditionalSpecFns::spec_bytes("\"total_bytes\":") + dec_u64(st.total_bytes as nat) + seq![44u8] + vstd::string::StringSliceAdditionalSpecFns::spec_bytes("\"new_bytes\":") + dec_u64(st.new_bytes as nat) + seq![44u8] + vstd::string::StringSliceAdditionalSpecFns::spec_bytes("\"deduplicated_bytes\":"), dec_u64(st.deduplicated_bytes as nat), seq![44u8] + (vstd::string::StringSliceAdditionalSpecFns::spec_bytes("\"duration_secs\":") + (dec_u64(st.duration_secs as nat) + (seq![125u8] + rest))));
    crate::jsonfmt::lemma_add_assoc(vstd::string::StringSliceAdditionalSpecFns::spec_bytes("{\"total_items\":") + dec_u64(st.total_items as nat) + seq![44u8] + vstd::string::StringSliceAdditionalSpecFns::spec_bytes("\"new_items\":") + dec_u64(st.new_items as nat) + seq![44u8] + vstd::string::StringSliceAdditionalSpecFns::spec_bytes("\"unchanged_items\":") + dec_u64(st.unchanged_items as nat) + seq![44u8] + vstd::string::StringSliceAdditionalSpecFns::spec_bytes("\"total_bytes\":") + dec_u64(st.total_bytes as nat) + seq![44u8] + vstd::string::StringSliceAdditionalSpecFns::spec_bytes("\"new_bytes\":") + dec_u64(st.new_bytes as nat) + seq![44u8], vstd::string::StringSliceAdditionalSpecFns::spec_bytes("\"deduplicated_bytes\":"), dec_u64(st.deduplicated_bytes as nat) + (seq![44u8] + (vstd::string::StringSliceAdditionalSpecFns::spec_bytes("\"duration_secs\":") + (dec_u64(st.duration_secs as nat) + (seq![125u8] + rest)))));
    crate::jsonfmt::lemma_add_assoc(vstd::string::StringSliceAdditionalSpecFns::spec_bytes("{\"total_items\":") + dec_u64(st.total_items as nat) + seq![44u8] + vstd::string::StringSliceAdditionalSpecFns::spec_bytes("\"new_items\":") + dec_u64(st.new_items as nat) + seq![44u8] + vstd::string::StringSliceAdditionalSpecFns::spec_bytes("\"unchanged_items\":") + dec_u64(st.unchanged_items as nat) + seq![44u8] + vstd::string::StringSliceAdditionalSpecFns::spec_bytes("\"total_bytes\":") + dec_u64(st.total_bytes as nat) + seq![44u8] + vstd::string::StringSliceAdditionalSpecFns::spec_bytes("\"new_bytes\":") + dec_u64(st.new_bytes as nat), seq![44u8], vstd::string::StringSliceAdditionalSpecFns::spec_bytes("\"deduplicated_bytes\":") + (dec_u64(st.deduplicated_bytes as nat) + (seq![44u8] + (vstd::string::StringSliceAdditionalSpecFns::spec_bytes("\"duration_secs\":") + (dec_u64(st.duration_secs as nat) + (seq![125u8] + rest))))));
    crate::jsonfmt::lemma_add_assoc(vstd::string::StringSliceAdditionalSpecFns::spec_bytes("{\"total_items\":") + dec_u64(st.total_items as nat) + seq![44u8] + vstd::string::StringSliceAdditionalSpecFns::spec_bytes("\"new_items\":") + dec_u64(st.new_items as nat) + seq![44u8] + vstd::string::StringSliceAdditionalSpecFns::spec_bytes("\"unchanged_items\":") + dec_u64(st.unchanged_items as nat) + seq![44u8] + vstd::string::StringSliceAdditionalSpecFns::spec_bytes("\"total_bytes\":") + dec_u64(st.total_bytes as nat) + seq![44u8] + vstd::string::StringSliceAdditionalSpecFns::spec_bytes("\"new_bytes\":"), dec_u64(st.new_bytes as nat), seq![44u8] + (vstd::string::StringSliceAdditionalSpecFns::spec_bytes("\"deduplicated_bytes\":") + (dec_u64(st.deduplicated_bytes as nat) + (seq![44u8] + (vstd::string::StringSliceAdditionalSpecFns::spec_bytes("\"duration_secs\":") + (dec_u64(st.duration_secs as nat) + (seq![125u8] + rest)))))));
    crate::jsonfmt::lemma_add_assoc(vstd::string::StringSliceAdditionalSpecFns::spec_bytes("{\"total_items\":") + dec_u64(st.total_items as nat) + seq![44u8] + vstd::string::StringSliceAdditionalSpecFns::spec_bytes("\"new_items\":") + dec_u64(st.new_items as nat) + seq![44u8] + vstd::string::StringSliceAdditionalSpecFns::spec_bytes("\"unchanged_items\":") + dec_u64(st.unchanged_items as nat) + seq![44u8] + vstd::string::StringSliceAdditionalSpecFns::spec_bytes("\"total_bytes\":") + dec_u64(st.total_bytes as nat) + seq![44u8], vstd::string::StringSliceAdditionalSpecFns::spec_bytes("\"new_bytes\":"), dec_u64(st.new_bytes as nat) + (seq![44u8] + (vstd::string::StringSliceAdditionalSpecFns::spec_bytes("\"deduplicated_bytes\":") + (dec_u64(st.deduplicated_bytes as nat) + (seq![44u8] + (vstd::string::StringSliceAdditionalSpecFns::spec_bytes("\"duration_secs\":") + (dec_u64(st.duration_secs as nat) + (seq![125u8] + rest))))))));
    crate::jsonfmt::lemma_add_assoc(vstd::string::StringSliceAdditionalSpecFns::spec_bytes("{\"total_items\":") + dec_u64(st.total_items as nat) + seq![44u8] + vstd::string::StringSliceAdditionalSpecFns::spec_bytes("\"new_items\":") + dec_u64(st.new_items as nat) + seq![44u8] + vstd::string::StringSliceAdditionalSpecFns::spec_bytes("\"unchanged_items\":") + dec_u64(st.unchanged_items as nat) + seq![44u8] + vstd::string::StringSliceAdditionalSpecFns::spec_bytes("\"total_bytes\":") + dec_u64(st.total_bytes as nat), seq![44u8], vstd::string::StringSliceAdditionalSpecFns::spec_bytes("\"new_bytes\":") + (dec_u64(st.new_bytes as nat) + (seq![44u8] + (vstd::string::StringSliceAdditionalSpecFns::spec_bytes("\"deduplicated_bytes\":") + (dec_u64(st.deduplicated_bytes as nat) + (seq![44u8] + (vstd::string::StringSliceAdditionalSpecFns::spec_bytes("\"duration_secs\":") + (dec_u64(st.duration_secs as nat) + (seq![125u8] + rest)))))))));
    crate::jsonfmt::lemma_add_assoc(vstd::string::StringSliceAdditionalSpecFns::spec_bytes("{\"total_items\":") + dec_u64(st.total_items as nat) + seq![44u8] + vstd::string::StringSliceAdditionalSpecFns::spec_bytes("\"new_items\":") + dec_u64(st.new_items as nat) + seq![44u8] + vstd::string::StringSliceAdditionalSpecFns::spec_bytes("\"unchanged_items\":") + dec_u64(st.unchanged_items as nat) + seq![44u8] + vstd::string::StringSliceAdditionalSpecFns::spec_bytes("\"total_bytes\":"), dec_u64(st.total_bytes as nat), seq![44u8] + (vstd::string::StringSliceAdditionalSpecFns::spec_bytes("\"new_bytes\":") + (dec_u64(st.new_bytes as nat) + (seq![44u8] + (vstd::string::StringSliceAdditionalSpecFns::spec_bytes("\"deduplicated_bytes\":") + (dec_u64(st.deduplicated_bytes as nat) + (seq![44u8] + (vstd::string::StringSliceAdditionalSpecFns::spec_bytes("\"duration_secs\":") + (dec_u64(st.duration_secs as nat) + (seq![125u8] + rest))))))))));
    crate::jsonfmt::lemma_add_assoc(vstd::string::StringSliceAdditionalSpecFns::spec_bytes("{\"total_items\":") + dec_u64(st.total_items as nat) + seq![44u8] + vstd::string::StringSliceAdditionalSpecFns::spec_bytes("\"new_items\":") + dec_u64(st.new_items as nat) + seq![44u8] + vstd::string::StringSliceAdditionalSpecFns::spec_bytes("\"unchanged_items\":") + dec_u64(st.unchanged_items as nat) + seq![44u8], vstd::string::StringSliceAdditionalSpecFns::spec_bytes("\"total_bytes\":"), dec_u64(st.total_bytes as nat) + (seq![44u8] + (vstd::string::StringSliceAdditionalSpecFns::spec_bytes("\"new_bytes\":") + (dec_u64(st.new_bytes as nat) + (seq![44u8] + (vstd::string::StringSliceAdditionalSpecFns::spec_bytes("\"deduplicated_bytes\":") + (dec_u64(st.deduplicated_bytes as nat) + (seq![44u8] + (vstd::string::StringSliceAdditionalSpecFns::spec_bytes("\"duration_secs\":") + (dec_u64(st.duration_secs as nat) + (seq![125u8] + rest)))))))))));
    crate::jsonfmt::lemma_add_assoc(vstd::string::StringSliceAdditionalSpecFns::spec_bytes("{\"total_items\":") + dec_u64(st.total_items as nat) + seq![44u8] + vstd::string::StringSliceAdditionalSpecFns::spec_bytes("\"new_items\":") + dec_u64(st.new_items as nat) + seq![44u8] + vstd::string::StringSliceAdditionalSpecFns::spec_bytes("\"unchanged_items\":") + dec_u64(st.unchanged_items as nat), seq![44u8], vstd::string::StringSliceAdditionalSpecFns::spec_bytes("\"total_bytes\":") + (dec_u64(st.total_bytes as nat) + (seq![44u8] + (vstd::string::StringSliceAdditionalSpecFns::spec_bytes("\"new_bytes\":") + (dec_u64(st.new_bytes as nat) + (seq![44u8] + (vstd::string::StringSliceAdditionalSpecFns::spec_bytes("\"deduplicated_bytes\":") + (dec_u64(st.deduplicated_bytes as nat) + (seq![44u8] + (vstd::string::StringSliceAdditionalSpecFns::spec_bytes("\"duration_secs\":") + (dec_u64(st.duration_secs as nat) + (seq![125u8] + rest))))))))))));
    crate::jsonfmt::lemma_add_assoc(vstd::string::StringSliceAdditionalSpecFns::spec_bytes("{\"total_items\":") + dec_u64(st.total_items as nat) + seq![44u8] + vstd::string::StringSliceAdditionalSpecFns::spec_bytes("\"new_items\":") + dec_u64(st.new_items as nat) + seq![44u8] + vstd::string::StringSliceAdditionalSpecFns::spec_bytes("\"unchanged_items\":"), dec_u64(st.unchanged_items as nat), seq![44u8] + (vstd::string::StringSliceAdditionalSpecFns::spec_bytes("\"total_bytes\":") + (dec_u64(st.total_bytes as nat) + (seq![44u8] + (vstd::string::StringSliceAdditionalSpecFns::spec_bytes("\"new_bytes\":") + (dec_u64(st.new_bytes as nat) + (seq![44u8] + (vstd::string::StringSliceAdditionalSpecFns::spec_bytes("\"deduplicated_bytes\":") + (dec_u64(st.deduplicated_bytes as nat) + (seq![44u8] + (vstd::string::StringSliceAdditionalSpecFns::spec_bytes("\"duration_secs\":") + (dec_u64(st.duration_secs as nat) + (seq![125u8] + rest)))))))))))));
    crate::jsonfmt::lemma_add_assoc(vstd::string::StringSliceAdditionalSpecFns::spec_bytes("{\"total_items\":") + dec_u64(st.total_items as nat) + seq![44u8] + vstd::string::StringSliceAdditionalSpecFns::spec_bytes("\"new_items\":") + dec_u64(st.new_items as nat) + seq![44u8], vstd::string::StringSliceAdditionalSpecFns::spec_bytes("\"unchanged_items\":"), dec_u64(st.unchanged_items as nat) + (seq![44u8] + (vstd::string::StringSliceAdditionalSpecFns::spec_bytes("\"total_bytes\":") + (dec_u64(st.total_bytes as nat) + (seq![44u8] + (vstd::string::StringSliceAdditionalSpecFns::spec_bytes("\"new_bytes\":") + (dec_u64(st.new_bytes as nat) + (seq![44u8] + (vstd::string::StringSliceAdditionalSpecFns::spec_bytes("\"deduplicated_bytes\":") + (dec_u64(st.deduplicated_bytes as nat) + (seq![44u8] + (vstd::string::StringSliceAdditionalSpecFns::spec_bytes("\"duration_secs\":") + (dec_u64(st.duration_secs as nat) + (seq![125u8] + rest))))))))))))));
    crate::jsonfmt::lemma_add_assoc(vstd::string::StringSliceAdditionalSpecFns::spec_bytes("{\"total_items\":") + dec_u64(st.total_items as nat) + seq![44u8] + vstd::string::StringSliceAdditionalSpecFns::spec_bytes("\"new_items\":") + dec_u64(st.new_items as nat), seq![44u8], vstd::string::StringSliceAdditionalSpecFns::spec_bytes("\"unchanged_items\":") + (dec_u64(st.unchanged_items as nat) + (seq![44u8] + (vstd::string::StringSliceAdditionalSpecFns::spec_bytes("\"total_bytes\":") + (dec_u64(st.total_bytes as nat) + (seq![44u8] + (vstd::string::StringSliceAdditionalSpecFns::spec_bytes("\"new_bytes\":") + (dec_u64(st.new_bytes as nat) + (seq![44u8] + (vstd::string::StringSliceAdditionalSpecFns::spec_bytes("\"deduplicated_bytes\":") + (dec_u64(st.deduplicated_bytes as nat) + (seq![44u8] + (vstd::string::StringSliceAdditionalSpecFns::spec_bytes("\"duration_secs\":") + (dec_u64(st.duration_secs as nat) + (seq![125u8] + rest)))))))))))))));
    crate::jsonfmt::lemma_add_assoc(vstd::string::StringSliceAdditionalSpecFns::spec_bytes("{\"total_items\":") + dec_u64(st.total_items as nat) + seq![44u8] + vstd::string::StringSliceAdditionalSpecFns::spec_bytes("\"new_items\":"), dec_u64(st.new_items as nat), seq![44u8] + (vstd::string::StringSliceAdditionalSpecFns::spec_bytes("\"unchanged_items\":") + (dec_u64(st.unchanged_items as nat) + (seq![44u8] + (vstd::string::StringSliceAdditionalSpecFns::spec_bytes("\"total_bytes\":") + (dec_u64(st.total_bytes as nat) + (seq![44u8] + (vstd::string::StringSliceAdditionalSpecFns::spec_bytes("\"new_bytes\":") + (dec_u64(st.new_bytes as nat) + (seq![44u8] + (vstd::string::StringSliceAdditionalSpecFns::spec_bytes("\"deduplicated_bytes\":") + (dec_u64(st.deduplicated_bytes as nat) + (seq![44u8] + (vstd::string::StringSliceAdditionalSpecFns::spec_bytes("\"duration_secs\":") + (dec_u64(st.duration_secs as nat) + (seq![125u8] + rest))))))))))))))));
    crate::jsonfmt::lemma_add_assoc(vstd::string::StringSliceAdditionalSpecFns::spec_bytes("{\"total_items\":") + dec_u64(st.total_items as nat) + seq![44u8], vstd::string::StringSliceAdditionalSpecFns::spec_bytes("\"new_items\":"), dec_u64(st.new_items as nat) + (seq![44u8] + (vstd::string::StringSliceAdditionalSpecFns::spec_bytes("\"unchanged_items\":") + (dec_u64(st.unchanged_items as nat) + (seq![44u8] + (vstd::string::StringSliceAdditionalSpecFns::spec_bytes("\"total_bytes\":") + (dec_u64(st.total_bytes as nat) + (seq![44u8] + (vstd::string::StringSliceAdditionalSpecFns::spec_bytes("\"new_bytes\":") + (dec_u64(st.new_bytes as nat) + (seq![44u8] + (vstd::string::StringSliceAdditionalSpecFns::spec_bytes("\"deduplicated_bytes\":") + (dec_u64(st.deduplicated_bytes as nat) + (seq![44u8] + (vstd::string::StringSliceAdditionalSpecFns::spec_bytes("\"duration_secs\":") + (dec_u64(st.duration_secs as nat) + (seq![125u8] + rest)))))))))))))))));
    crate::jsonfmt::lemma_add_assoc(vstd::string::StringSliceAdditionalSpecFns::spec_bytes("{\"total_items\":") + dec_u64(st.total_items as nat), seq![44u8], vstd::string::StringSliceAdditionalSpecFns::spec_bytes("\"new_items\":") + (dec_u64(st.new_items as nat) + (seq![44u8] + (vstd::string::StringSliceAdditionalSpecFns::spec_bytes("\"unchanged_items\":") + (dec_u64(st.unchanged_items as nat) + (seq![44u8] + (vstd::string::StringSliceAdditionalSpecFns::spec_bytes("\"total_bytes\":") + (dec_u64(st.total_bytes as nat) + (seq![44u8] + (vstd::string::StringSliceAdditionalSpecFns::spec_bytes("\"new_bytes\":") + (dec_u64(st.new_bytes as nat) + (seq![44u8] + (vstd::string::StringSliceAdditionalSpecFns::spec_bytes("\"deduplicated_bytes\":") + (dec_u64(st.deduplicated_bytes as nat) + (seq![44u8] + (vstd::string::StringSliceAdditionalSpecFns::spec_bytes("\"duration_secs\":") + (dec_u64(st.duration_secs as nat) + (seq![125u8] + rest))))))))))))))))));
    crate::jsonfmt::lemma_add_assoc(vstd::string::StringSliceAdditionalSpecFns::spec_bytes("{\"total_items\":"), dec_u64(st.total_items as nat), seq![44u8] + (vstd::string::StringSliceAdditionalSpecFns::spec_bytes("\"new_items\":") + (dec_u64(st.new_items as nat) + (seq![44u8] + (vstd::string::StringSliceAdditionalSpecFns::spec_bytes("\"unchanged_items\":") + (dec_u64(st.unchanged_items as nat) + (seq![44u8] + (vstd::string::StringSliceAdditionalSpecFns::spec_bytes("\"total_bytes\":") + (dec_u64(st.total_bytes as nat) + (seq![44u8] + (vstd::string::StringSliceAdditionalSpecFns::spec_bytes("\"new_bytes\":") + (dec_u64(st.new_bytes as nat) + (seq![44u8] + (vstd::string::StringSliceAdditionalSpecFns::spec_bytes("\"deduplicated_bytes\":") + (dec_u64(st.deduplicated_bytes as nat) + (seq![44u8] + (vstd::string::StringSliceAdditionalSpecFns::spec_bytes("\"duration_secs\":") + (dec_u64(st.duration_secs as nat) + (seq![125u8] + rest)))))))))))))))))));
}

/// Parses the statistics object at `pos`: exact in both directions.
#[verifier::loop_isolation(false)]
#[verifier::spinoff_prover]
#[verifier::rlimit(100)]
fn parse_stats(data: &Vec<u8>, pos: usize) -> (r: Option<(BackupStats, usize)>)
    requires
        pos <= data@.len(),
    ensures
        r matches Some((st, p)) ==> pos < p <= data@.len() && data@.subrange(pos as int, p as int)
            == stats_json(st),
        forall|st0: BackupStats, rest: Seq<u8>|
            #![trigger stats_json(st0) + rest]
            data@.skip(pos as int) == stats_json(st0) + rest ==> (r matches Some((st, p)) && st
                == st0 && p == pos + stats_json(st0).len()),
{
    proof {
        assert forall|st0: BackupStats, rest: Seq<u8>| data@.skip(pos as int) == stats_json(st0) + rest implies data@.skip(pos as int) == (vstd::string::StringSliceAdditionalSpecFns::spec_bytes("{\"total_items\":") + (dec_u64(st0.total_items as nat) + (seq![44u8] + (vstd::string::StringSliceAdditionalSpecFns::spec_bytes("\"new_items\":") + (dec_u64(st0.new_items as nat) + (seq![44u8] + (vstd::string::StringSliceAdditionalSpecFns::spec_bytes("\"unchanged_items\":") + (dec_u64(st0.unchanged_items as nat) + (seq![44u8] + (vstd::string::StringSliceAdditionalSpecFns::spec_bytes("\"total_bytes\":") + (dec_u64(st0.total_bytes as nat) + (seq![44u8] + (vstd::string::StringSliceAdditionalSpecFns::spec_bytes("\"new_bytes\":") + (dec_u64(st0.new_bytes as nat) + (seq![44u8] + (vstd::string::StringSliceAdditionalSpecFns::spec_bytes("\"deduplicated_bytes\":") + (dec_u64(st0.deduplicated_bytes as nat) + (seq![44u8] + (vstd::string::StringSliceAdditionalSpecFns::spec_bytes("\"duration_secs\":") + (dec_u64(st0.duration_secs as nat) + (seq![125u8] + rest))))))))))))))))))))) by {
            lemma_stats_chain(st0, rest);
        }
    }
    let (total_items, q0) = match parse_stat_field(data, pos, "{\"total_items\":", 44) {
        Some(t) => t,
        None => {
            proof {
                assert forall|st0: BackupStats, rest: Seq<u8>| data@.skip(pos as int) == stats_json(st0) + rest implies false by {
                    lemma_stats_chain(st0, rest);
                }
            }
            return None;
        },
    };
    proof {
        assert forall|st0: BackupStats, rest: Seq<u8>| data@.skip(pos as int) == stats_json(st0) + rest implies total_items == st0.total_items && data@.skip(
            q0 as int,
        ) == (vstd::string::StringSliceAdditionalSpecFns::spec_bytes("\"new_items\":") + (dec_u64(st0.new_items as nat) + (seq![44u8] + (vstd::string::StringSliceAdditionalSpecFns::spec_bytes("\"unchanged_items\":") + (dec_u64(st0.unchanged_items as nat) + (seq![44u8] + (vstd::string::StringSliceAdditionalSpecFns::spec_bytes("\"total_bytes\":") + (dec_u64(st0.total_bytes as nat) + (seq![44u8] + (vstd::string::StringSliceAdditionalSpecFns::spec_bytes("\"new_bytes\":") + (dec_u64(st0.new_bytes as nat) + (seq![44u8] + (vstd::string::StringSliceAdditionalSpecFns::spec_bytes("\"deduplicated_bytes\":") + (dec_u64(st0.deduplicated_bytes as nat) + (seq![44u8] + (vstd::string::StringSliceAdditionalSpecFns::spec_bytes("\"duration_secs\":") + (dec_u64(st0.duration_secs as nat) + (seq![125u8] + rest)))))))))))))))))) by {
            lemma_stats_chain(st0, rest);
        }
    }
    let (new_items, q1) = match parse_stat_field(data, q0, "\"new_items\":", 44) {
        Some(t) => t,
        None => {
            proof {
                assert forall|st0: BackupStats, rest: Seq<u8>| data@.skip(pos as int) == stats_json(st0) + rest implies false by {
                    lemma_stats_chain(st0, rest);
                }
            }
            return None;
        },
    };
    proof {
        assert forall|st0: BackupStats, rest: Seq<u8>| data@.skip(pos as int) == stats_json(st0) + rest implies new_items == st0.new_items && data@.skip(
            q1 as int,
        ) == (vstd::string::StringSliceAdditionalSpecFns::spec_bytes("\"unchanged_items\":") + (dec_u64(st0.unchanged_items as nat) + (seq![44u8] + (vstd::string::StringSliceAdditionalSpecFns::spec_bytes("\"total_bytes\":") + (dec_u64(st0.total_bytes as nat) + (seq![44u8] + (vstd::string::StringSliceAdditionalSpecFns::spec_bytes("\"new_bytes\":") + (dec_u64(st0.new_bytes as nat) + (seq![44u8] + (vstd::string::StringSliceAdditionalSpecFns::spec_bytes("\"deduplicated_bytes\":") + (dec_u64(st0.deduplicated_bytes as nat) + (seq![44u8] + (vstd::string::StringSliceAdditionalSpecFns::spec_bytes("\"duration_secs\":") + (dec_u64(st0.duration_secs as nat) + (seq![125u8] + rest))))))))))))))) by {
            lemma_stats_chain(st0, rest);
        }
    }
    let (unchanged_items, q2) = match parse_stat_field(data, q1, "\"unchanged_items\":", 44) {
        Some(t) => t,
        None => {
            proof {
                assert forall|st0: BackupStats, rest: Seq<u8>| data@.skip(pos as int) == stats_json(st0) + rest implies false by {
                    lemma_stats_chain(st0, rest);
                }
            }
            return None;
        },
    };
    proof {
        assert forall|st0: BackupStats, rest: Seq<u8>| data@.skip(pos as int) == stats_json(st0) + rest implies unchanged_items == st0.unchanged_items && data@.skip(
            q2 as int,
        ) == (vstd::string::StringSliceAdditionalSpecFns::spec_bytes("\"total_bytes\":") + (dec_u64(st0.total_bytes as nat) + (seq![44u8] + (vstd::string::StringSliceAdditionalSpecFns::spec_bytes("\"new_bytes\":") + (dec_u64(st0.new_bytes as nat) + (seq![44u8] + (vstd::string::StringSliceAdditionalSpecFns::spec_bytes("\"deduplicated_bytes\":") + (dec_u64(st0.deduplicated_bytes as nat) + (seq![44u8] + (vstd::string::StringSliceAdditionalSpecFns::spec_bytes("\"duration_secs\":") + (dec_u64(st0.duration_secs as nat) + (seq![125u8] + rest)))))))))))) by {
            lemma_stats_chain(st0, rest);
        }
    }
    let (total_bytes, q3) = match parse_stat_field(data, q2, "\"total_bytes\":", 44) {
        Some(t) => t,
        None => {
            proof {
                assert forall|st0: BackupStats, rest: Seq<u8>| data@.skip(pos as int) == stats_json(st0) + rest implies false by {
                    lemma_stats_chain(st0, rest);
                }
            }
            return None;
        },
    };
    proof {
        assert forall|st0: BackupStats, rest: Seq<u8>| data@.skip(pos as int) == stats_json(st0) + rest implies total_bytes == st0.total_bytes && data@.skip(
            q3 as int,
        ) == (vstd::string::StringSliceAdditionalSpecFns::spec_bytes("\"new_bytes\":") + (dec_u64(st0.new_bytes as nat) + (seq![44u8] + (vstd::string::StringSliceAdditionalSpecFns::spec_bytes("\"deduplicated_bytes\":") + (dec_u64(st0.deduplicated_bytes as nat) + (seq![44u8] + (vstd::string::StringSliceAdditionalSpecFns::spec_bytes("\"duration_secs\":") + (dec_u64(st0.duration_secs as nat) + (seq![125u8] + rest))))))))) by {
            lemma_stats_chain(st0, rest);
        }
    }
    let (new_bytes, q4) = match parse_stat_field(data, q3, "\"new_bytes\":", 44) {
        Some(t) => t,
        None => {
            proof {
                assert forall|st0: BackupStats, rest: Seq<u8>| data@.skip(pos as int) == stats_json(st0) + rest implies false by {
                    lemma_stats_chain(st0, rest);
                }
            }
            return None;
        },
    };
    proof {
        assert forall|st0: BackupStats, rest: Seq<u8>| data@.skip(pos as int) == stats_json(st0) + rest implies new_bytes == st0.new_bytes && data@.skip(
            q4 as int,
        ) == (vstd::string::StringSliceAdditionalSpecFns::spec_bytes("\"deduplicated_bytes\":") + (dec_u64(st0.deduplicated_bytes as nat) + (seq![44u8] + (vstd::string::StringSliceAdditionalSpecFns::spec_bytes("\"duration_secs\":") + (dec_u64(st0.duration_secs as nat) + (seq![125u8] + rest)))))) by {
            lemma_stats_chain(st0, rest);
        }
    }
    let (deduplicated_bytes, q5) = match parse_stat_field(data, q4, "\"deduplicated_bytes\":", 44) {
        Some(t) => t,
        None => {
            proof {
                assert forall|st0: BackupStats, rest: Seq<u8>| data@.skip(pos as int) == stats_json(st0) + rest implies false by {
                    lemma_stats_chain(st0, rest);
                }
            }
            return None;
        },
    };
    proof {
        assert forall|st0: BackupStats, rest: Seq<u8>| data@.skip(pos as int) == stats_json(st0) + rest implies deduplicated_bytes == st0.deduplicated_bytes && data@.skip(
            q5 as int,
        ) == (vstd::string::StringSliceAdditionalSpecFns::spec_bytes("\"duration_secs\":") + (dec_u64(st0.duration_secs as nat) + (seq![125u8] + rest))) by {
            lemma_stats_chain(st0, rest);
        }
    }
    let (duration_secs, q6) = match parse_stat_field(data, q5, "\"duration_secs\":", 125) {
        Some(t) => t,
        None => {
            proof {
                assert forall|st0: BackupStats, rest: Seq<u8>| data@.skip(pos as int) == stats_json(st0) + rest implies false by {
                    lemma_stats_chain(st0, rest);
                }
            }
            return None;
        },
    };
    proof {
        assert forall|st0: BackupStats, rest: Seq<u8>| data@.skip(pos as int) == stats_json(st0) + rest implies duration_secs == st0.duration_secs && data@.skip(
            q6 as int,
        ) == rest by {
            lemma_stats_chain(st0, rest);
        }
    }
    let st = BackupStats {
        total_items,
        new_items,
        unchanged_items,
        total_bytes,
        new_bytes,
        deduplicated_bytes,
        duration_secs,
    };
    proof {
        crate::jsonfmt::lemma_subrange_compose(data@, pos as int, q0 as int, q1 as int);
        crate::jsonfmt::lemma_subrange_compose(data@, pos as int, q1 as int, q2 as int);
        crate::jsonfmt::lemma_subrange_compose(data@, pos as int, q2 as int, q3 as int);
        crate::jsonfmt::lemma_subrange_compose(data@, pos as int, q3 as int, q4 as int);
        crate::jsonfmt::lemma_subrange_compose(data@, pos as int, q4 as int, q5 as int);
        crate::jsonfmt::lemma_subrange_compose(data@, pos as int, q5 as int, q6 as int);
        assert(data@.subrange(pos as int, q6 as int) =~= stats_json(st));
        assert forall|st0: BackupStats, rest: Seq<u8>| data@.skip(pos as int) == stats_json(st0) + rest implies st == st0 && q6 == pos + stats_json(st0).len() by {
            lemma_stats_chain(st0, rest);
            assert((stats_json(st0) + rest).len() == stats_json(st0).len() + rest.len());
            assert(data@.skip(pos as int).len() == data@.len() - pos);
            assert(data@.skip(q6 as int).len() == data@.len() - q6);
        }
    }
    Some((st, q6))
}



/// The leading fields of a tree node's text: path, type, size, modified.
pub open spec fn node_head_json(
    path: Seq<char>,
    nt: NodeType,
    size: u64,
    m: Option<Timestamp>,
) -> Seq<u8> {
    (bytes_of_str("{\"path\":"@) + (jstr(path) + (bytes_of_str(",\"node_type\":"@) + (jstr(node_type_tag(nt)) + (bytes_of_str(",\"size\":"@) + (dec_u64(size as nat) + (seq![44u8] + (bytes_of_str("\"modified\":"@) + opt_ts_json(m)))))))))
}

/// A node's text is its head, then its chunk and metadata tail.
proof fn lemma_node_split(n: TreeNode)
    ensures
        node_json(n) == node_head_json(n.path@, n.node_type, n.size, n.modified) + (bytes_of_str(
            ",\"chunks\":["@,
        ) + (chunks_json_from(n.chunks@, 0) + (seq![93u8] + (bytes_of_str(",\"metadata\":"@) + (
        pairs_obj_json(n.metadata@) + seq![125u8]))))),
{
    let tail = bytes_of_str(",\"chunks\":["@) + (chunks_json_from(n.chunks@, 0) + (seq![93u8]
        + (bytes_of_str(",\"metadata\":"@) + (pairs_obj_json(n.metadata@) + seq![125u8]))));
    lemma_node_head_chain(n.path@, n.node_type, n.size, n.modified, tail);
}

/// The fully right-nested head text with a continuation.
#[verifier::spinoff_prover]
#[verifier::rlimit(100)]
proof fn lemma_node_head_chain(path: Seq<char>, nt: NodeType, size: u64, m: Option<Timestamp>, rest: Seq<u8>)
    ensures
        node_head_json(path, nt, size, m) + rest == bytes_of_str("{\"path\":"@) + (jstr(path) + (bytes_of_str(",\"node_type\":"@) + (jstr(node_type_tag(nt)) + (bytes_of_str(",\"size\":"@) + (dec_u64(size as nat) + (seq![44u8] + (bytes_of_str("\"modified\":"@) + (opt_ts_json(m) + rest)))))))),
{
    crate::jsonfmt::lemma_add_assoc(bytes_of_str("{\"path\":"@), (jstr(path) + (bytes_of_str(",\"node_type\":"@) + (jstr(node_type_tag(nt)) + (bytes_of_str(",\"size\":"@) + (dec_u64(size as nat) + (seq![44u8] + (bytes_of_str("\"modified\":"@) + opt_ts_json(m)))))))), rest);
    crate::jsonfmt::lemma_add_assoc(jstr(path), (bytes_of_str(",\"node_type\":"@) + (jstr(node_type_tag(nt)) + (bytes_of_str(",\"size\":"@) + (dec_u64(size as nat) + (seq![44u8] + (bytes_of_str("\"modified\":"@) + opt_ts_json(m))))))), rest);
    crate::jsonfmt::lemma_add_assoc(bytes_of_str(",\"node_type\":"@), (jstr(node_type_tag(nt)) + (bytes_of_str(",\"size\":"@) + (dec_u64(size as nat) + (seq![44u8] + (bytes_of_str("\"modified\":"@) + opt_ts_json(m)))))), rest);
    crate::jsonfmt::lemma_add_assoc(jstr(node_type_tag(nt)), (bytes_of_str(",\"size\":"@) + (dec_u64(size as nat) + (seq![44u8] + (bytes_of_str("\"modified\":"@) + opt_ts_json(m))))), rest);
    crate::jsonfmt::lemma_add_assoc(bytes_of_str(",\"size\":"@), (dec_u64(size as nat) + (seq![44u8] + (bytes_of_str("\"modified\":"@) + opt_ts_json(m)))), rest);
    crate::jsonfmt::lemma_add_assoc(dec_u64(size as nat), (seq![44u8] + (bytes_of_str("\"modified\":"@) + opt_ts_json(m))), rest);
    crate::jsonfmt::lemma_add_assoc(seq![44u8], (bytes_of_str("\"modified\":"@) + opt_ts_json(m)), rest);
    crate::jsonfmt::lemma_add_assoc(bytes_of_str("\"modified\":"@), opt_ts_json(m), rest);
}

/// Parses the leading fields of a tree node: exact in both directions.
#[verifier::loop_isolation(false)]
#[verifier::spinoff_prover]
#[verifier::rlimit(100)]
fn parse_node_head(data: &Vec<u8>, pos: usize) -> (r: Option<(
    (String, NodeType, u64, Option<Timestamp>),
    usize,
)>)
    requires
        pos <= data@.len(),
    ensures
        r matches Some((h, p)) ==> pos < p <= data@.len() && data@.subrange(pos as int, p as int)
            == node_head_json(h.0@, h.1, h.2, h.3) && (h.3 matches Some(t) ==> t.wf()),
        forall|path: Seq<char>, nt: NodeType, size0: u64, m: Option<Timestamp>, rest: Seq<u8>|
            #![trigger node_head_json(path, nt, size0, m) + rest]
            data@.skip(pos as int) == node_head_json(path, nt, size0, m) + rest && (m matches Some(mt) ==> mt.wf()) ==> (r matches Some((h, p)) && h.0@ == path && h.1 == nt && h.2 == size0 && h.3
                == m && p == pos + node_head_json(path, nt, size0, m).len() && data@.skip(
                p as int,
            ) == rest),
{
    proof {
        assert forall|path: Seq<char>, nt: NodeType, size0: u64, m: Option<Timestamp>, rest: Seq<u8>| data@.skip(pos as int) == node_head_json(path, nt, size0, m) + rest && (m matches Some(mt) ==> mt.wf()) implies data@.skip(pos as int) == bytes_of_str("{\"path\":"@) + (jstr(path) + (bytes_of_str(",\"node_type\":"@) + (jstr(node_type_tag(nt)) + (bytes_of_str(",\"size\":"@) + (dec_u64(size0 as nat) + (seq![44u8] + (bytes_of_str("\"modified\":"@) + (opt_ts_json(m) + rest)))))))) by {
            lemma_node_head_chain(path, nt, size0, m, rest);
        }
    }
    let p0 = match crate::jsonfmt::expect(data, pos, "{\"path\":") {
        Some(p) => p,
        None => {
            proof {
                assert forall|path: Seq<char>, nt: NodeType, size0: u64, m: Option<Timestamp>, rest: Seq<u8>|
                    data@.skip(pos as int) == node_head_json(path, nt, size0, m) + rest && (m matches Some(mt) ==> mt.wf()) implies false by {
                    crate::jsonfmt::lemma_starts_with(data@, pos as int, bytes_of_str("{\"path\":"@), jstr(path) + (bytes_of_str(",\"node_type\":"@) + (jstr(node_type_tag(nt)) + (bytes_of_str(",\"size\":"@) + (dec_u64(size0 as nat) + (seq![44u8] + (bytes_of_str("\"modified\":"@) + (opt_ts_json(m) + rest))))))));
                }
            }
            return None;
        },
    };
    proof {
        assert forall|path: Seq<char>, nt: NodeType, size0: u64, m: Option<Timestamp>, rest: Seq<u8>| data@.skip(pos as int) == node_head_json(path, nt, size0, m) + rest && (m matches Some(mt) ==> mt.wf()) implies data@.skip(p0 as int) == jstr(path) + (bytes_of_str(",\"node_type\":"@) + (jstr(node_type_tag(nt)) + (bytes_of_str(",\"size\":"@) + (dec_u64(size0 as nat) + (seq![44u8] + (bytes_of_str("\"modified\":"@) + (opt_ts_json(m) + rest))))))) by {
            crate::jsonfmt::lemma_starts_with(data@, pos as int, bytes_of_str("{\"path\":"@), jstr(path) + (bytes_of_str(",\"node_type\":"@) + (jstr(node_type_tag(nt)) + (bytes_of_str(",\"size\":"@) + (dec_u64(size0 as nat) + (seq![44u8] + (bytes_of_str("\"modified\":"@) + (opt_ts_json(m) + rest))))))));
        }
    }
    let (vpath, p1) = match crate::jsonfmt::parse_string(data, p0) {
        Some(t) => t,
        None => {
            proof {
                assert forall|path: Seq<char>, nt: NodeType, size0: u64, m: Option<Timestamp>, rest: Seq<u8>|
                    data@.skip(pos as int) == node_head_json(path, nt, size0, m) + rest && (m matches Some(mt) ==> mt.wf()) implies false by {
                    assert(data@.skip(p0 as int) == jstr(path) + (bytes_of_str(",\"node_type\":"@) + (jstr(node_type_tag(nt)) + (bytes_of_str(",\"size\":"@) + (dec_u64(size0 as nat) + (seq![44u8] + (bytes_of_str("\"modified\":"@) + (opt_ts_json(m) + rest))))))));
                }
            }
            return None;
        },
    };
    proof {
        assert forall|path: Seq<char>, nt: NodeType, size0: u64, m: Option<Timestamp>, rest: Seq<u8>| data@.skip(pos as int) == node_head_json(path, nt, size0, m) + rest && (m matches Some(mt) ==> mt.wf()) implies vpath@ == path && data@.skip(p1 as int) == bytes_of_str(",\"node_type\":"@) + (jstr(node_type_tag(nt)) + (bytes_of_str(",\"size\":"@) + (dec_u64(size0 as nat) + (seq![44u8] + (bytes_of_str("\"modified\":"@) + (opt_ts_json(m) + rest)))))) by {
            crate::jsonfmt::lemma_starts_with(data@, p0 as int, jstr(path), bytes_of_str(",\"node_type\":"@) + (jstr(node_type_tag(nt)) + (bytes_of_str(",\"size\":"@) + (dec_u64(size0 as nat) + (seq![44u8] + (bytes_of_str("\"modified\":"@) + (opt_ts_json(m) + rest)))))));
        }
    }
    let p2 = match crate::jsonfmt::expect(data, p1, ",\"node_type\":") {
        Some(p) => p,
        None => {
            proof {
                assert forall|path: Seq<char>, nt: NodeType, size0: u64, m: Option<Timestamp>, rest: Seq<u8>|
                    data@.skip(pos as int) == node_head_json(path, nt, size0, m) + rest && (m matches Some(mt) ==> mt.wf()) implies false by {
                    crate::jsonfmt::lemma_starts_with(data@, p1 as int, bytes_of_str(",\"node_type\":"@), jstr(node_type_tag(nt)) + (bytes_of_str(",\"size\":"@) + (dec_u64(size0 as nat) + (seq![44u8] + (bytes_of_str("\"modified\":"@) + (opt_ts_json(m) + rest))))));
                }
            }
            return None;
        },
    };
    proof {
        assert forall|path: Seq<char>, nt: NodeType, size0: u64, m: Option<Timestamp>, rest: Seq<u8>| data@.skip(pos as int) == node_head_json(path, nt, size0, m) + rest && (m matches Some(mt) ==> mt.wf()) implies data@.skip(p2 as int) == jstr(node_type_tag(nt)) + (bytes_of_str(",\"size\":"@) + (dec_u64(size0 as nat) + (seq![44u8] + (bytes_of_str("\"modified\":"@) + (opt_ts_json(m) + rest))))) by {
            crate::jsonfmt::lemma_starts_with(data@, p1 as int, bytes_of_str(",\"node_type\":"@), jstr(node_type_tag(nt)) + (bytes_of_str(",\"size\":"@) + (dec_u64(size0 as nat) + (seq![44u8] + (bytes_of_str("\"modified\":"@) + (opt_ts_json(m) + rest))))));
        }
    }
    let (vnt, p3) = match parse_node_type(data, p2) {
        Some(t) => t,
        None => {
            proof {
                assert forall|path: Seq<char>, nt: NodeType, size0: u64, m: Option<Timestamp>, rest: Seq<u8>|
                    data@.skip(pos as int) == node_head_json(path, nt, size0, m) + rest && (m matches Some(mt) ==> mt.wf()) implies false by {
                    assert(data@.skip(p2 as int) == jstr(node_type_tag(nt)) + (bytes_of_str(",\"size\":"@) + (dec_u64(size0 as nat) + (seq![44u8] + (bytes_of_str("\"modified\":"@) + (opt_ts_json(m) + rest))))));
                }
            }
            return None;
        },
    };
    proof {
        assert forall|path: Seq<char>, nt: NodeType, size0: u64, m: Option<Timestamp>, rest: Seq<u8>| data@.skip(pos as int) == node_head_json(path, nt, size0, m) + rest && (m matches Some(mt) ==> mt.wf()) implies vnt == nt && data@.skip(p3 as int) == bytes_of_str(",\"size\":"@) + (dec_u64(size0 as nat) + (seq![44u8] + (bytes_of_str("\"modified\":"@) + (opt_ts_json(m) + rest)))) by {
            crate::jsonfmt::lemma_starts_with(data@, p2 as int, jstr(node_type_tag(nt)), bytes_of_str(",\"size\":"@) + (dec_u64(size0 as nat) + (seq![44u8] + (bytes_of_str("\"modified\":"@) + (opt_ts_json(m) + rest)))));
        }
    }
    let p4 = match crate::jsonfmt::expect(data, p3, ",\"size\":") {
        Some(p) => p,
        None => {
            proof {
                assert forall|path: Seq<char>, nt: NodeType, size0: u64, m: Option<Timestamp>, rest: Seq<u8>|
                    data@.skip(pos as int) == node_head_json(path, nt, size0, m) + rest && (m matches Some(mt) ==> mt.wf()) implies false by {
                    crate::jsonfmt::lemma_starts_with(data@, p3 as int, bytes_of_str(",\"size\":"@), dec_u64(size0 as nat) + (seq![44u8] + (bytes_of_str("\"modified\":"@) + (opt_ts_json(m) + rest))));
                }
            }
            return None;
        },
    };
    proof {
        assert forall|path: Seq<char>, nt: NodeType, size0: u64, m: Option<Timestamp>, rest: Seq<u8>| data@.skip(pos as int) == node_head_json(path, nt, size0, m) + rest && (m matches Some(mt) ==> mt.wf()) implies data@.skip(p4 as int) == dec_u64(size0 as nat) + (seq![44u8] + (bytes_of_str("\"modified\":"@) + (opt_ts_json(m) + rest))) by {
            crate::jsonfmt::lemma_starts_with(data@, p3 as int, bytes_of_str(",\"size\":"@), dec_u64(size0 as nat) + (seq![44u8] + (bytes_of_str("\"modified\":"@) + (opt_ts_json(m) + rest))));
        }
    }
    let (vsize, p5) = match crate::jsonfmt::parse_u64(data, p4) {
        Some(t) => t,
        None => {
            proof {
                assert forall|path: Seq<char>, nt: NodeType, size0: u64, m: Option<Timestamp>, rest: Seq<u8>|
                    data@.skip(pos as int) == node_head_json(path, nt, size0, m) + rest && (m matches Some(mt) ==> mt.wf()) implies false by {
                    assert((seq![44u8] + (bytes_of_str("\"modified\":"@) + (opt_ts_json(m) + rest)))[0] == 44);
                }
            }
            return None;
        },
    };
    proof {
        assert forall|path: Seq<char>, nt: NodeType, size0: u64, m: Option<Timestamp>, rest: Seq<u8>| data@.skip(pos as int) == node_head_json(path, nt, size0, m) + rest && (m matches Some(mt) ==> mt.wf()) implies vsize == size0 && data@.skip(p5 as int) == seq![44u8] + (bytes_of_str("\"modified\":"@) + (opt_ts_json(m) + rest)) by {
            assert((seq![44u8] + (bytes_of_str("\"modified\":"@) + (opt_ts_json(m) + rest)))[0] == 44);
            crate::jsonfmt::lemma_starts_with(data@, p4 as int, dec_u64(size0 as nat), seq![44u8] + (bytes_of_str("\"modified\":"@) + (opt_ts_json(m) + rest)));
        }
    }
    let p6 = match crate::jsonfmt::expect_byte(data, p5, 44) {
        Some(p) => p,
        None => {
            proof {
                assert forall|path: Seq<char>, nt: NodeType, size0: u64, m: Option<Timestamp>, rest: Seq<u8>|
                    data@.skip(pos as int) == node_head_json(path, nt, size0, m) + rest && (m matches Some(mt) ==> mt.wf()) implies false by {
                    assert(data@.skip(p5 as int)[0] == data@[p5 as int]);
                }
            }
            return None;
        },
    };
    proof {
        assert forall|path: Seq<char>, nt: NodeType, size0: u64, m: Option<Timestamp>, rest: Seq<u8>| data@.skip(pos as int) == node_head_json(path, nt, size0, m) + rest && (m matches Some(mt) ==> mt.wf()) implies data@.skip(p6 as int) == bytes_of_str("\"modified\":"@) + (opt_ts_json(m) + rest) by {
            crate::jsonfmt::lemma_starts_with(data@, p5 as int, seq![44u8], bytes_of_str("\"modified\":"@) + (opt_ts_json(m) + rest));
        }
    }
    let p7 = match crate::jsonfmt::expect(data, p6, "\"modified\":") {
        Some(p) => p,
        None => {
            proof {
                assert forall|path: Seq<char>, nt: NodeType, size0: u64, m: Option<Timestamp>, rest: Seq<u8>|
                    data@.skip(pos as int) == node_head_json(path, nt, size0, m) + rest && (m matches Some(mt) ==> mt.wf()) implies false by {
                    crate::jsonfmt::lemma_starts_with(data@, p6 as int, bytes_of_str("\"modified\":"@), opt_ts_json(m) + rest);
                }
            }
            return None;
        },
    };
    proof {
        assert forall|path: Seq<char>, nt: NodeType, size0: u64, m: Option<Timestamp>, rest: Seq<u8>| data@.skip(pos as int) == node_head_json(path, nt, size0, m) + rest && (m matches Some(mt) ==> mt.wf()) implies data@.skip(p7 as int) == opt_ts_json(m) + rest by {
            crate::jsonfmt::lemma_starts_with(data@, p6 as int, bytes_of_str("\"modified\":"@), opt_ts_json(m) + rest);
        }
    }
    let (vmod, p8) = match parse_opt_ts(data, p7) {
        Some(t) => t,
        None => {
            proof {
                assert forall|path: Seq<char>, nt: NodeType, size0: u64, m: Option<Timestamp>, rest: Seq<u8>|
                    data@.skip(pos as int) == node_head_json(path, nt, size0, m) + rest && (m matches Some(mt) ==> mt.wf()) implies false by {
                    assert(data@.skip(p7 as int) == opt_ts_json(m) + (rest));
                }
            }
            return None;
        },
    };
    proof {
        assert forall|path: Seq<char>, nt: NodeType, size0: u64, m: Option<Timestamp>, rest: Seq<u8>| data@.skip(pos as int) == node_head_json(path, nt, size0, m) + rest && (m matches Some(mt) ==> mt.wf()) implies vmod == m && data@.skip(p8 as int) == rest by {
            crate::jsonfmt::lemma_starts_with(data@, p7 as int, opt_ts_json(m), rest);
        }
    }
    proof {
        crate::index::lemma_cat9(
            data@,
            pos as int,
            p0 as int,
            p1 as int,
            p2 as int,
            p3 as int,
            p4 as int,
            p5 as int,
            p6 as int,
            p7 as int,
            p8 as int,
            p8 as int,
        );
        assert(data@.subrange(p5 as int, p6 as int) =~= seq![44u8]);
        assert(data@.subrange(pos as int, p8 as int) =~= node_head_json(vpath@, vnt, vsize,
            vmod));
        assert forall|path: Seq<char>, nt: NodeType, size0: u64, m: Option<Timestamp>, rest: Seq<u8>| data@.skip(pos as int) == node_head_json(path, nt, size0, m) + rest && (m matches Some(mt) ==> mt.wf()) implies p8 == pos + node_head_json(
            path,
            nt,
            size0,
            m,
        ).len() by {
            assert((node_head_json(path, nt, size0, m) + rest).len() == node_head_json(
                path,
                nt,
                size0,
                m,
            ).len() + rest.len());
            assert(data@.skip(pos as int).len() == data@.len() - pos);
            assert(data@.skip(p8 as int).len() == data@.len() - p8);
        }
    }
    Some(((vpath, vnt, vsize, vmod), p8))
}

/// Parses one tree node object at `pos`: exact in both directions.
#[verifier::loop_isolation(false)]
#[verifier::spinoff_prover]
#[verifier::rlimit(100)]
fn parse_node(data: &Vec<u8>, pos: usize) -> (r: Option<(TreeNode, usize)>)
    requires
        pos <= data@.len(),
    ensures
        r matches Some((n, p)) ==> pos < p <= data@.len() && data@.subrange(pos as int, p as int)
            == node_json(n) && (n.modified matches Some(t) ==> t.wf()),
        forall|n0: TreeNode, rest: Seq<u8>|
            #![trigger node_json(n0) + rest]
            data@.skip(pos as int) == node_json(n0) + rest && (n0.modified matches Some(mt)
                ==> mt.wf()) ==> (r matches Some((n, p)) && node_matches(n, n0) && p == pos
                + node_json(n0).len() && data@.skip(p as int) == rest),
{
    proof {
        assert forall|n0: TreeNode, rest: Seq<u8>|
            data@.skip(pos as int) == node_json(n0) + rest && (n0.modified matches Some(mt)
                ==> mt.wf()) implies data@.skip(pos as int) == node_head_json(
            n0.path@,
            n0.node_type,
            n0.size,
            n0.modified,
        ) + (bytes_of_str(",\"chunks\":["@) + (chunks_json_from(n0.chunks@, 0) + (seq![93u8] + (
        bytes_of_str(",\"metadata\":"@) + (pairs_obj_json(n0.metadata@) + (seq![125u8]
            + rest)))))) by {
            lemma_node_split(n0);
            crate::jsonfmt::lemma_add_assoc(
                node_head_json(n0.path@, n0.node_type, n0.size, n0.modified),
                bytes_of_str(",\"chunks\":["@) + (chunks_json_from(n0.chunks@, 0) + (seq![93u8]
                    + (bytes_of_str(",\"metadata\":"@) + (pairs_obj_json(n0.metadata@)
                    + seq![125u8])))),
                rest,
            );
            assert((bytes_of_str(",\"chunks\":["@) + (chunks_json_from(n0.chunks@, 0) + (
            seq![93u8] + (bytes_of_str(",\"metadata\":"@) + (pairs_obj_json(n0.metadata@)
                + seq![125u8]))))) + rest =~= bytes_of_str(",\"chunks\":["@) + (
            chunks_json_from(n0.chunks@, 0) + (seq![93u8] + (bytes_of_str(",\"metadata\":"@)
                + (pairs_obj_json(n0.metadata@) + (seq![125u8] + rest))))));
        }
    }
    let (head, p8) = match parse_node_head(data, pos) {
        Some(t) => t,
        None => {
            proof {
                assert forall|n0: TreeNode, rest: Seq<u8>|
                    data@.skip(pos as int) == node_json(n0) + rest && (n0.modified matches Some(
                        mt,
                    ) ==> mt.wf()) implies false by {}
            }
            return None;
        },
    };
    proof {
        assert forall|n0: TreeNode, rest: Seq<u8>|
            data@.skip(pos as int) == node_json(n0) + rest && (n0.modified matches Some(mt)
                ==> mt.wf()) implies head.0@ == n0.path@ && head.1 == n0.node_type && head.2
            == n0.size && head.3 == n0.modified && data@.skip(p8 as int) == bytes_of_str(
            ",\"chunks\":["@,
        ) + (chunks_json_from(n0.chunks@, 0) + (seq![93u8] + (bytes_of_str(",\"metadata\":"@)
            + (pairs_obj_json(n0.metadata@) + (seq![125u8] + rest))))) by {}
    }
    let p9 = match crate::jsonfmt::expect(data, p8, ",\"chunks\":[") {
        Some(p) => p,
        None => {
            proof {
                assert forall|n0: TreeNode, rest: Seq<u8>|
                    data@.skip(pos as int) == node_json(n0) + rest && (n0.modified matches Some(
                        mt,
                    ) ==> mt.wf()) implies false by {
                    crate::jsonfmt::lemma_starts_with(
                        data@,
                        p8 as int,
                        bytes_of_str(",\"chunks\":["@),
                        chunks_json_from(n0.chunks@, 0) + (seq![93u8] + (bytes_of_str(
                            ",\"metadata\":"@,
                        ) + (pairs_obj_json(n0.metadata@) + (seq![125u8] + rest)))),
                    );
                }
            }
            return None;
        },
    };
    proof {
        assert forall|n0: TreeNode, rest: Seq<u8>|
            data@.skip(pos as int) == node_json(n0) + rest && (n0.modified matches Some(mt)
                ==> mt.wf()) implies data@.skip(p9 as int) == chunks_json_from(n0.chunks@, 0) + (
        seq![93u8] + (bytes_of_str(",\"metadata\":"@) + (pairs_obj_json(n0.metadata@) + (
        seq![125u8] + rest)))) by {
            crate::jsonfmt::lemma_starts_with(
                data@,
                p8 as int,
                bytes_of_str(",\"chunks\":["@),
                chunks_json_from(n0.chunks@, 0) + (seq![93u8] + (bytes_of_str(
                    ",\"metadata\":"@,
                ) + (pairs_obj_json(n0.metadata@) + (seq![125u8] + rest)))),
            );
        }
    }
    let (chunks, p10) = match parse_chunks_arr(data, p9) {
        Some(t) => t,
        None => {
            proof {
                assert forall|n0: TreeNode, rest: Seq<u8>|
                    data@.skip(pos as int) == node_json(n0) + rest && (n0.modified matches Some(
                        mt,
                    ) ==> mt.wf()) implies false by {}
            }
            return None;
        },
    };
    proof {
        assert forall|n0: TreeNode, rest: Seq<u8>|
            data@.skip(pos as int) == node_json(n0) + rest && (n0.modified matches Some(mt)
                ==> mt.wf()) implies chunks@.len() == n0.chunks@.len() && (forall|mm: int|
            0 <= mm < n0.chunks@.len() ==> chunkref_matches(#[trigger] chunks@[mm], n0.chunks@[
                mm
            ])) && data@.skip(p10 as int) == bytes_of_str(",\"metadata\":"@) + (pairs_obj_json(
            n0.metadata@,
        ) + (seq![125u8] + rest)) by {}
    }
    let p11 = match crate::jsonfmt::expect(data, p10, ",\"metadata\":") {
        Some(p) => p,
        None => {
            proof {
                assert forall|n0: TreeNode, rest: Seq<u8>|
                    data@.skip(pos as int) == node_json(n0) + rest && (n0.modified matches Some(
                        mt,
                    ) ==> mt.wf()) implies false by {
                    crate::jsonfmt::lemma_starts_with(
                        data@,
                        p10 as int,
                        bytes_of_str(",\"metadata\":"@),
                        pairs_obj_json(n0.metadata@) + (seq![125u8] + rest),
                    );
                }
            }
            return None;
        },
    };
    proof {
        assert forall|n0: TreeNode, rest: Seq<u8>|
            data@.skip(pos as int) == node_json(n0) + rest && (n0.modified matches Some(mt)
                ==> mt.wf()) implies data@.skip(p11 as int) == pairs_obj_json(n0.metadata@) + (
        seq![125u8] + rest) by {
            crate::jsonfmt::lemma_starts_with(
                data@,
                p10 as int,
                bytes_of_str(",\"metadata\":"@),
                pairs_obj_json(n0.metadata@) + (seq![125u8] + rest),
            );
        }
    }
    let (metadata, p12) = match parse_pairs_obj(data, p11) {
        Some(t) => t,
        None => {
            proof {
                assert forall|n0: TreeNode, rest: Seq<u8>|
                    data@.skip(pos as int) == node_json(n0) + rest && (n0.modified matches Some(
                        mt,
                    ) ==> mt.wf()) implies false by {}
            }
            return None;
        },
    };
    let p13 = match crate::jsonfmt::expect_byte(data, p12, 125) {
        Some(p) => p,
        None => {
            proof {
                assert forall|n0: TreeNode, rest: Seq<u8>|
                    data@.skip(pos as int) == node_json(n0) + rest && (n0.modified matches Some(
                        mt,
                    ) ==> mt.wf()) implies false by {
                    assert(data@.skip(p12 as int) == seq![125u8] + rest);
                    assert(data@.skip(p12 as int)[0] == data@[p12 as int]);
                }
            }
            return None;
        },
    };
    let (path, node_type, size, modified) = head;
    let n = TreeNode { path, node_type, size, modified, chunks, metadata };
    proof {
        assert(data@.subrange(p12 as int, p13 as int) =~= seq![125u8]);
        assert(data@.subrange(p9 as int, p10 as int) == chunks_json_from(n.chunks@, 0)
            + seq![93u8]);
        lemma_node_split(n);
        crate::jsonfmt::lemma_subrange_compose(data@, pos as int, p8 as int, p13 as int);
        crate::jsonfmt::lemma_subrange_compose(data@, p8 as int, p9 as int, p13 as int);
        crate::jsonfmt::lemma_subrange_compose(data@, p9 as int, p10 as int, p13 as int);
        crate::jsonfmt::lemma_subrange_compose(data@, p10 as int, p11 as int, p13 as int);
        crate::jsonfmt::lemma_subrange_compose(data@, p11 as int, p12 as int, p13 as int);
        assert(data@.subrange(pos as int, p13 as int) =~= node_json(n));
        assert forall|n0: TreeNode, rest: Seq<u8>|
            data@.skip(pos as int) == node_json(n0) + rest && (n0.modified matches Some(mt)
                ==> mt.wf()) implies node_matches(n, n0) && p13 == pos + node_json(n0).len()
            && data@.skip(p13 as int) == rest by {
            crate::jsonfmt::lemma_starts_with(data@, p12 as int, seq![125u8], rest);
            assert((node_json(n0) + rest).len() == node_json(n0).len() + rest.len());
            assert(data@.skip(pos as int).len() == data@.len() - pos);
            assert(data@.skip(p13 as int).len() == data@.len() - p13);
        }
    }
    Some((n, p13))
}

/// The fully right-nested form of a snapshot text with a continuation.
#[verifier::spinoff_prover]
#[verifier::rlimit(100)]
proof fn lemma_snapshot_chain(s: Snapshot, rest: Seq<u8>)
    ensures
        snapshot_json(s) + rest == bytes_of_str("{\"id\":"@) + (jstr(s.id@) + (bytes_of_str(",\"timestamp\":"@) + (ts_quoted(s.timestamp) + (bytes_of_str(",\"tenant\":"@) + (jstr(s.tenant@) + (bytes_of_str(",\"service\":"@) + (jstr(service_tag(s.service)) + (bytes_of_str(",\"user\":"@) + (opt_str_json(s.user) + (bytes_of_str(",\"parent\":"@) + (opt_str_json(s.parent) + (bytes_of_str(",\"tree\":{\"nodes\":["@) + (nodes_json_from(s.tree.nodes@, 0) + (seq![93u8] + (bytes_of_str(",\"delta_tokens\":"@) + (pairs_obj_json(s.delta_tokens@) + (bytes_of_str(",\"stats\":"@) + (stats_json(s.stats) + (seq![125u8] + rest))))))))))))))))))),
{
    reveal(snapshot_json);
    crate::jsonfmt::lemma_add_assoc(bytes_of_str("{\"id\":"@) + jstr(s.id@) + bytes_of_str(",\"timestamp\":"@) + ts_quoted(s.timestamp) + bytes_of_str(",\"tenant\":"@) + jstr(s.tenant@) + bytes_of_str(",\"service\":"@) + jstr(service_tag(s.service)) + bytes_of_str(",\"user\":"@) + opt_str_json(s.user) + bytes_of_str(",\"parent\":"@) + opt_str_json(s.parent) + bytes_of_str(",\"tree\":{\"nodes\":["@) + nodes_json_from(s.tree.nodes@, 0) + seq![93u8] + bytes_of_str(",\"delta_tokens\":"@) + pairs_obj_json(s.delta_tokens@) + bytes_of_str(",\"stats\":"@) + stats_json(s.stats), seq![125u8], rest);
    crate::jsonfmt::lemma_add_assoc(bytes_of_str("{\"id\":"@) + jstr(s.id@) + bytes_of_str(",\"timestamp\":"@) + ts_quoted(s.timestamp) + bytes_of_str(",\"tenant\":"@) + jstr(s.tenant@) + bytes_of_str(",\"service\":"@) + jstr(service_tag(s.service)) + bytes_of_str(",\"user\":"@) + opt_str_json(s.user) + bytes_of_str(",\"parent\":"@) + opt_str_json(s.parent) + bytes_of_str(",\"tree\":{\"nodes\":["@) + nodes_json_from(s.tree.nodes@, 0) + seq![93u8] + bytes_of_str(",\"delta_tokens\":"@) + pairs_obj_json(s.delta_tokens@) + bytes_of_str(",\"stats\":"@), stats_json(s.stats), seq![125u8] + rest);
    crate::jsonfmt::lemma_add_assoc(bytes_of_str("{\"id\":"@) + jstr(s.id@) + bytes_of_str(",\"timestamp\":"@) + ts_quoted(s.timestamp) + bytes_of_str(",\"tenant\":"@) + jstr(s.tenant@) + bytes_of_str(",\"service\":"@) + jstr(service_tag(s.service)) + bytes_of_str(",\"user\":"@) + opt_str_json(s.user) + bytes_of_str(",\"parent\":"@) + opt_str_json(s.parent) + bytes_of_str(",\"tree\":{\"nodes\":["@) + nodes_json_from(s.tree.nodes@, 0) + seq![93u8] + bytes_of_str(",\"delta_tokens\":"@) + pairs_obj_json(s.delta_tokens@), bytes_of_str(",\"stats\":"@), stats_json(s.stats) + (seq![125u8] + rest));
    crate::jsonfmt::lemma_add_assoc(bytes_of_str("{\"id\":"@) + jstr(s.id@) + bytes_of_str(",\"timestamp\":"@) + ts_quoted(s.timestamp) + bytes_of_str(",\"tenant\":"@) + jstr(s.tenant@) + bytes_of_str(",\"service\":"@) + jstr(service_tag(s.service)) + bytes_of_str(",\"user\":"@) + opt_str_json(s.user) + bytes_of_str(",\"parent\":"@) + opt_str_json(s.parent) + bytes_of_str(",\"tree\":{\"nodes\":["@) + nodes_json_from(s.tree.nodes@, 0) + seq![93u8] + bytes_of_str(",\"delta_tokens\":"@), pairs_obj_json(s.delta_tokens@), bytes_of_str(",\"stats\":"@) + (stats_json(s.stats) + (seq![125u8] + rest)));
    crate::jsonfmt::lemma_add_assoc(bytes_of_str("{\"id\":"@) + jstr(s.id@) + bytes_of_str(",\"timestamp\":"@) + ts_quoted(s.timestamp) + bytes_of_str(",\"tenant\":"@) + jstr(s.tenant@) + bytes_of_str(",\"service\":"@) + jstr(service_tag(s.service)) + bytes_of_str(",\"user\":"@) + opt_str_json(s.user) + bytes_of_str(",\"parent\":"@) + opt_str_json(s.parent) + bytes_of_str(",\"tree\":{\"nodes\":["@) + nodes_json_from(s.tree.nodes@, 0) + seq![93u8], bytes_of_str(",\"delta_tokens\":"@), pairs_obj_json(s.delta_tokens@) + (bytes_of_str(",\"stats\":"@) + (stats_json(s.stats) + (seq![125u8] + rest))));
    crate::jsonfmt::lemma_add_assoc(bytes_of_str("{\"id\":"@) + jstr(s.id@) + bytes_of_str(",\"timestamp\":"@) + ts_quoted(s.timestamp) + bytes_of_str(",\"tenant\":"@) + jstr(s.tenant@) + bytes_of_str(",\"service\":"@) + jstr(service_tag(s.service)) + bytes_of_str(",\"user\":"@) + opt_str_json(s.user) + bytes_of_str(",\"parent\":"@) + opt_str_json(s.parent) + bytes_of_str(",\"tree\":{\"nodes\":["@) + nodes_json_from(s.tree.nodes@, 0), seq![93u8], bytes_of_str(",\"delta_tokens\":"@) + (pairs_obj_json(s.delta_tokens@) + (bytes_of_str(",\"stats\":"@) + (stats_json(s.stats) + (seq![125u8] + rest)))));
    crate::jsonfmt::lemma_add_assoc(bytes_of_str("{\"id\":"@) + jstr(s.id@) + bytes_of_str(",\"timestamp\":"@) + ts_quoted(s.timestamp) + bytes_of_str(",\"tenant\":"@) + jstr(s.tenant@) + bytes_of_str(",\"service\":"@) + jstr(service_tag(s.service)) + bytes_of_str(",\"user\":"@) + opt_str_json(s.user) + bytes_of_str(",\"parent\":"@) + opt_str_json(s.parent) + bytes_of_str(",\"tree\":{\"nodes\":["@), nodes_json_from(s.tree.nodes@, 0), seq![93u8] + (bytes_of_str(",\"delta_tokens\":"@) + (pairs_obj_json(s.delta_tokens@) + (bytes_of_str(",\"stats\":"@) + (stats_json(s.stats) + (seq![125u8] + rest))))));
    crate::jsonfmt::lemma_add_assoc(bytes_of_str("{\"id\":"@) + jstr(s.id@) + bytes_of_str(",\"timestamp\":"@) + ts_quoted(s.timestamp) + bytes_of_str(",\"tenant\":"@) + jstr(s.tenant@) + bytes_of_str(",\"service\":"@) + jstr(service_tag(s.service)) + bytes_of_str(",\"user\":"@) + opt_str_json(s.user) + bytes_of_str(",\"parent\":"@) + opt_str_json(s.parent), bytes_of_str(",\"tree\":{\"nodes\":["@), nodes_json_from(s.tree.nodes@, 0) + (seq![93u8] + (bytes_of_str(",\"delta_tokens\":"@) + (pairs_obj_json(s.delta_tokens@) + (bytes_of_str(",\"stats\":"@) + (stats_json(s.stats) + (seq![125u8] + rest)))))));
    crate::jsonfmt::lemma_add_assoc(bytes_of_str("{\"id\":"@) + jstr(s.id@) + bytes_of_str(",\"timestamp\":"@) + ts_quoted(s.timestamp) + bytes_of_str(",\"tenant\":"@) + jstr(s.tenant@) + bytes_of_str(",\"service\":"@) + jstr(service_tag(s.service)) + bytes_of_str(",\"user\":"@) + opt_str_json(s.user) + bytes_of_str(",\"parent\":"@), opt_str_json(s.parent), bytes_of_str(",\"tree\":{\"nodes\":["@) + (nodes_json_from(s.tree.nodes@, 0) + (seq![93u8] + (bytes_of_str(",\"delta_tokens\":"@) + (pairs_obj_json(s.delta_tokens@) + (bytes_of_str(",\"stats\":"@) + (stats_json(s.stats) + (seq![125u8] + rest))))))));
    crate::jsonfmt::lemma_add_assoc(bytes_of_str("{\"id\":"@) + jstr(s.id@) + bytes_of_str(",\"timestamp\":"@) + ts_quoted(s.timestamp) + bytes_of_str(",\"tenant\":"@) + jstr(s.tenant@) + bytes_of_str(",\"service\":"@) + jstr(service_tag(s.service)) + bytes_of_str(",\"user\":"@) + opt_str_json(s.user), bytes_of_str(",\"parent\":"@), opt_str_json(s.parent) + (bytes_of_str(",\"tree\":{\"nodes\":["@) + (nodes_json_from(s.tree.nodes@, 0) + (seq![93u8] + (bytes_of_str(",\"delta_tokens\":"@) + (pairs_obj_json(s.delta_tokens@) + (bytes_of_str(",\"stats\":"@) + (stats_json(s.stats) + (seq![125u8] + rest)))))))));
    crate::jsonfmt::lemma_add_assoc(bytes_of_str("{\"id\":"@) + jstr(s.id@) + bytes_of_str(",\"timestamp\":"@) + ts_quoted(s.timestamp) + bytes_of_str(",\"tenant\":"@) + jstr(s.tenant@) + bytes_of_str(",\"service\":"@) + jstr(service_tag(s.service)) + bytes_of_str(",\"user\":"@), opt_str_json(s.user), bytes_of_str(",\"parent\":"@) + (opt_str_json(s.parent) + (bytes_of_str(",\"tree\":{\"nodes\":["@) + (nodes_json_from(s.tree.nodes@, 0) + (seq![93u8] + (bytes_of_str(",\"delta_tokens\":"@) + (pairs_obj_json(s.delta_tokens@) + (bytes_of_str(",\"stats\":"@) + (stats_json(s.stats) + (seq![125u8] + rest))))))))));
    crate::jsonfmt::lemma_add_assoc(bytes_of_str("{\"id\":"@) + jstr(s.id@) + bytes_of_str(",\"timestamp\":"@) + ts_quoted(s.timestamp) + bytes_of_str(",\"tenant\":"@) + jstr(s.tenant@) + bytes_of_str(",\"service\":"@) + jstr(service_tag(s.service)), bytes_of_str(",\"user\":"@), opt_str_json(s.user) + (bytes_of_str(",\"parent\":"@) + (opt_str_json(s.parent) + (bytes_of_str(",\"tree\":{\"nodes\":["@) + (nodes_json_from(s.tree.nodes@, 0) + (seq![93u8] + (bytes_of_str(",\"delta_tokens\":"@) + (pairs_obj_json(s.delta_tokens@) + (bytes_of_str(",\"stats\":"@) + (stats_json(s.stats) + (seq![125u8] + rest)))))))))));
    crate::jsonfmt::lemma_add_assoc(bytes_of_str("{\"id\":"@) + jstr(s.id@) + bytes_of_str(",\"timestamp\":"@) + ts_quoted(s.timestamp) + bytes_of_str(",\"tenant\":"@) + jstr(s.tenant@) + bytes_of_str(",\"service\":"@), jstr(service_tag(s.service)), bytes_of_str(",\"user\":"@) + (opt_str_json(s.user) + (bytes_of_str(",\"parent\":"@) + (opt_str_json(s.parent) + (bytes_of_str(",\"tree\":{\"nodes\":["@) + (nodes_json_from(s.tree.nodes@, 0) + (seq![93u8] + (bytes_of_str(",\"delta_tokens\":"@) + (pairs_obj_json(s.delta_tokens@) + (bytes_of_str(",\"stats\":"@) + (stats_json(s.stats) + (seq![125u8] + rest))))))))))));
    crate::jsonfmt::lemma_add_assoc(bytes_of_str("{\"id\":"@) + jstr(s.id@) + bytes_of_str(",\"timestamp\":"@) + ts_quoted(s.timestamp) + bytes_of_str(",\"tenant\":"@) + jstr(s.tenant@), bytes_of_str(",\"service\":"@), jstr(service_tag(s.service)) + (bytes_of_str(",\"user\":"@) + (opt_str_json(s.user) + (bytes_of_str(",\"parent\":"@) + (opt_str_json(s.parent) + (bytes_of_str(",\"tree\":{\"nodes\":["@) + (nodes_json_from(s.tree.nodes@, 0) + (seq![93u8] + (bytes_of_str(",\"delta_tokens\":"@) + (pairs_obj_json(s.delta_tokens@) + (bytes_of_str(",\"stats\":"@) + (stats_json(s.stats) + (seq![125u8] + rest)))))))))))));
    crate::jsonfmt::lemma_add_assoc(bytes_of_str("{\"id\":"@) + jstr(s.id@) + bytes_of_str(",\"timestamp\":"@) + ts_quoted(s.timestamp) + bytes_of_str(",\"tenant\":"@), jstr(s.tenant@), bytes_of_str(",\"service\":"@) + (jstr(service_tag(s.service)) + (bytes_of_str(",\"user\":"@) + (opt_str_json(s.user) + (bytes_of_str(",\"parent\":"@) + (opt_str_json(s.parent) + (bytes_of_str(",\"tree\":{\"nodes\":["@) + (nodes_json_from(s.tree.nodes@, 0) + (seq![93u8] + (bytes_of_str(",\"delta_tokens\":"@) + (pairs_obj_json(s.delta_tokens@) + (bytes_of_str(",\"stats\":"@) + (stats_json(s.stats) + (seq![125u8] + rest))))))))))))));
    crate::jsonfmt::lemma_add_assoc(bytes_of_str("{\"id\":"@) + jstr(s.id@) + bytes_of_str(",\"timestamp\":"@) + ts_quoted(s.timestamp), bytes_of_str(",\"tenant\":"@), jstr(s.tenant@) + (bytes_of_str(",\"service\":"@) + (jstr(service_tag(s.service)) + (bytes_of_str(",\"user\":"@) + (opt_str_json(s.user) + (bytes_of_str(",\"parent\":"@) + (opt_str_json(s.parent) + (bytes_of_str(",\"tree\":{\"nodes\":["@) + (nodes_json_from(s.tree.nodes@, 0) + (seq![93u8] + (bytes_of_str(",\"delta_tokens\":"@) + (pairs_obj_json(s.delta_tokens@) + (bytes_of_str(",\"stats\":"@) + (stats_json(s.stats) + (seq![125u8] + rest)))))))))))))));
    crate::jsonfmt::lemma_add_assoc(bytes_of_str("{\"id\":"@) + jstr(s.id@) + bytes_of_str(",\"timestamp\":"@), ts_quoted(s.timestamp), bytes_of_str(",\"tenant\":"@) + (jstr(s.tenant@) + (bytes_of_str(",\"service\":"@) + (jstr(service_tag(s.service)) + (bytes_of_str(",\"user\":"@) + (opt_str_json(s.user) + (bytes_of_str(",\"parent\":"@) + (opt_str_json(s.parent) + (bytes_of_str(",\"tree\":{\"nodes\":["@) + (nodes_json_from(s.tree.nodes@, 0) + (seq![93u8] + (bytes_of_str(",\"delta_tokens\":"@) + (pairs_obj_json(s.delta_tokens@) + (bytes_of_str(",\"stats\":"@) + (stats_json(s.stats) + (seq![125u8] + rest))))))))))))))));
    crate::jsonfmt::lemma_add_assoc(bytes_of_str("{\"id\":"@) + jstr(s.id@), bytes_of_str(",\"timestamp\":"@), ts_quoted(s.timestamp) + (bytes_of_str(",\"tenant\":"@) + (jstr(s.tenant@) + (bytes_of_str(",\"service\":"@) + (jstr(service_tag(s.service)) + (bytes_of_str(",\"user\":"@) + (opt_str_json(s.user) + (bytes_of_str(",\"parent\":"@) + (opt_str_json(s.parent) + (bytes_of_str(",\"tree\":{\"nodes\":["@) + (nodes_json_from(s.tree.nodes@, 0) + (seq![93u8] + (bytes_of_str(",\"delta_tokens\":"@) + (pairs_obj_json(s.delta_tokens@) + (bytes_of_str(",\"stats\":"@) + (stats_json(s.stats) + (seq![125u8] + rest)))))))))))))))));
    crate::jsonfmt::lemma_add_assoc(bytes_of_str("{\"id\":"@), jstr(s.id@), bytes_of_str(",\"timestamp\":"@) + (ts_quoted(s.timestamp) + (bytes_of_str(",\"tenant\":"@) + (jstr(s.tenant@) + (bytes_of_str(",\"service\":"@) + (jstr(service_tag(s.service)) + (bytes_of_str(",\"user\":"@) + (opt_str_json(s.user) + (bytes_of_str(",\"parent\":"@) + (opt_str_json(s.parent) + (bytes_of_str(",\"tree\":{\"nodes\":["@) + (nodes_json_from(s.tree.nodes@, 0) + (seq![93u8] + (bytes_of_str(",\"delta_tokens\":"@) + (pairs_obj_json(s.delta_tokens@) + (bytes_of_str(",\"stats\":"@) + (stats_json(s.stats) + (seq![125u8] + rest))))))))))))))))));
}

/// Stitches the consecutive spans of a parsed snapshot into its document.
#[verifier::spinoff_prover]
#[verifier::rlimit(100)]
proof fn lemma_snapshot_stitch(
    data: Seq<u8>,
    pos: int,
    p0: int,
    p1: int,
    p2: int,
    p3: int,
    p4: int,
    p5: int,
    p6: int,
    p7: int,
    p8: int,
    p9: int,
    p10: int,
    p11: int,
    p12: int,
    p13: int,
    p14: int,
    p15: int,
    p16: int,
    p17: int,
    p18: int,
    s: Snapshot,
)
    requires
        0 <= pos <= p0 <= p1 <= p2 <= p3 <= p4 <= p5 <= p6 <= p7 <= p8 <= p9 <= p10 <= p11 <= p12 <= p13 <= p14 <= p15 <= p16 <= p17 <= p18 <= data.len(),
        data.subrange(pos, p0) == bytes_of_str("{\"id\":"@),
        data.subrange(p0, p1) == jstr(s.id@),
        data.subrange(p1, p2) == bytes_of_str(",\"timestamp\":"@),
        data.subrange(p2, p3) == ts_quoted(s.timestamp),
        data.subrange(p3, p4) == bytes_of_str(",\"tenant\":"@),
        data.subrange(p4, p5) == jstr(s.tenant@),
        data.subrange(p5, p6) == bytes_of_str(",\"service\":"@),
        data.subrange(p6, p7) == jstr(service_tag(s.service)),
        data.subrange(p7, p8) == bytes_of_str(",\"user\":"@),
        data.subrange(p8, p9) == opt_str_json(s.user),
        data.subrange(p9, p10) == bytes_of_str(",\"parent\":"@),
        data.subrange(p10, p11) == opt_str_json(s.parent),
        data.subrange(p11, p12) == bytes_of_str(",\"tree\":{\"nodes\":["@),
        data.subrange(p12, p13) == nodes_json_from(s.tree.nodes@, 0) + seq![93u8],
        data.subrange(p13, p14) == bytes_of_str(",\"delta_tokens\":"@),
        data.subrange(p14, p15) == pairs_obj_json(s.delta_tokens@),
        data.subrange(p15, p16) == bytes_of_str(",\"stats\":"@),
        data.subrange(p16, p17) == stats_json(s.stats),
        data.subrange(p17, p18) == seq![125u8],
    ensures
        data.subrange(pos, p18) == snapshot_json(s),
{
    reveal(snapshot_json);
    crate::jsonfmt::lemma_subrange_compose(data, pos, p0, p1);
    assert(data.subrange(pos, p1) == bytes_of_str("{\"id\":"@) + jstr(s.id@));
    crate::jsonfmt::lemma_subrange_compose(data, pos, p1, p2);
    assert(data.subrange(pos, p2) == bytes_of_str("{\"id\":"@) + jstr(s.id@) + bytes_of_str(",\"timestamp\":"@));
    crate::jsonfmt::lemma_subrange_compose(data, pos, p2, p3);
    assert(data.subrange(pos, p3) == bytes_of_str("{\"id\":"@) + jstr(s.id@) + bytes_of_str(",\"timestamp\":"@) + ts_quoted(s.timestamp));
    crate::jsonfmt::lemma_subrange_compose(data, pos, p3, p4);
    assert(data.subrange(pos, p4) == bytes_of_str("{\"id\":"@) + jstr(s.id@) + bytes_of_str(",\"timestamp\":"@) + ts_quoted(s.timestamp) + bytes_of_str(",\"tenant\":"@));
    crate::jsonfmt::lemma_subrange_compose(data, pos, p4, p5);
    assert(data.subrange(pos, p5) == bytes_of_str("{\"id\":"@) + jstr(s.id@) + bytes_of_str(",\"timestamp\":"@) + ts_quoted(s.timestamp) + bytes_of_str(",\"tenant\":"@) + jstr(s.tenant@));
    crate::jsonfmt::lemma_subrange_compose(data, pos, p5, p6);
    assert(data.subrange(pos, p6) == bytes_of_str("{\"id\":"@) + jstr(s.id@) + bytes_of_str(",\"timestamp\":"@) + ts_quoted(s.timestamp) + bytes_of_str(",\"tenant\":"@) + jstr(s.tenant@) + bytes_of_str(",\"service\":"@));
    crate::jsonfmt::lemma_subrange_compose(data, pos, p6, p7);
    assert(data.subrange(pos, p7) == bytes_of_str("{\"id\":"@) + jstr(s.id@) + bytes_of_str(",\"timestamp\":"@) + ts_quoted(s.timestamp) + bytes_of_str(",\"tenant\":"@) + jstr(s.tenant@) + bytes_of_str(",\"service\":"@) + jstr(service_tag(s.service)));
    crate::jsonfmt::lemma_subrange_compose(data, pos, p7, p8);
    assert(data.subrange(pos, p8) == bytes_of_str("{\"id\":"@) + jstr(s.id@) + bytes_of_str(",\"timestamp\":"@) + ts_quoted(s.timestamp) + bytes_of_str(",\"tenant\":"@) + jstr(s.tenant@) + bytes_of_str(",\"service\":"@) + jstr(service_tag(s.service)) + bytes_of_str(",\"user\":"@));
    crate::jsonfmt::lemma_subrange_compose(data, pos, p8, p9);
    assert(data.subrange(pos, p9) == bytes_of_str("{\"id\":"@) + jstr(s.id@) + bytes_of_str(",\"timestamp\":"@) + ts_quoted(s.timestamp) + bytes_of_str(",\"tenant\":"@) + jstr(s.tenant@) + bytes_of_str(",\"service\":"@) + jstr(service_tag(s.service)) + bytes_of_str(",\"user\":"@) + opt_str_json(s.user));
    crate::jsonfmt::lemma_subrange_compose(data, pos, p9, p10);
    assert(data.subrange(pos, p10) == bytes_of_str("{\"id\":"@) + jstr(s.id@) + bytes_of_str(",\"timestamp\":"@) + ts_quoted(s.timestamp) + bytes_of_str(",\"tenant\":"@) + jstr(s.tenant@) + bytes_of_str(",\"service\":"@) + jstr(service_tag(s.service)) + bytes_of_str(",\"user\":"@) + opt_str_json(s.user) + bytes_of_str(",\"parent\":"@));
    crate::jsonfmt::lemma_subrange_compose(data, pos, p10, p11);
    assert(data.subrange(pos, p11) == bytes_of_str("{\"id\":"@) + jstr(s.id@) + bytes_of_str(",\"timestamp\":"@) + ts_quoted(s.timestamp) + bytes_of_str(",\"tenant\":"@) + jstr(s.tenant@) + bytes_of_str(",\"service\":"@) + jstr(service_tag(s.service)) + bytes_of_str(",\"user\":"@) + opt_str_json(s.user) + bytes_of_str(",\"parent\":"@) + opt_str_json(s.parent));
    crate::jsonfmt::lemma_subrange_compose(data, pos, p11, p12);
    assert(data.subrange(pos, p12) == bytes_of_str("{\"id\":"@) + jstr(s.id@) + bytes_of_str(",\"timestamp\":"@) + ts_quoted(s.timestamp) + bytes_of_str(",\"tenant\":"@) + jstr(s.tenant@) + bytes_of_str(",\"service\":"@) + jstr(service_tag(s.service)) + bytes_of_str(",\"user\":"@) + opt_str_json(s.user) + bytes_of_str(",\"parent\":"@) + opt_str_json(s.parent) + bytes_of_str(",\"tree\":{\"nodes\":["@));
    crate::jsonfmt::lemma_subrange_compose(data, pos, p12, p13);
    crate::jsonfmt::lemma_add_assoc(bytes_of_str("{\"id\":"@) + jstr(s.id@) + bytes_of_str(",\"timestamp\":"@) + ts_quoted(s.timestamp) + bytes_of_str(",\"tenant\":"@) + jstr(s.tenant@) + bytes_of_str(",\"service\":"@) + jstr(service_tag(s.service)) + bytes_of_str(",\"user\":"@) + opt_str_json(s.user) + bytes_of_str(",\"parent\":"@) + opt_str_json(s.parent) + bytes_of_str(",\"tree\":{\"nodes\":["@), nodes_json_from(s.tree.nodes@, 0), seq![93u8]);
    assert(data.subrange(pos, p13) == bytes_of_str("{\"id\":"@) + jstr(s.id@) + bytes_of_str(",\"timestamp\":"@) + ts_quoted(s.timestamp) + bytes_of_str(",\"tenant\":"@) + jstr(s.tenant@) + bytes_of_str(",\"service\":"@) + jstr(service_tag(s.service)) + bytes_of_str(",\"user\":"@) + opt_str_json(s.user) + bytes_of_str(",\"parent\":"@) + opt_str_json(s.parent) + bytes_of_str(",\"tree\":{\"nodes\":["@) + nodes_json_from(s.tree.nodes@, 0) + seq![93u8]);
    crate::jsonfmt::lemma_subrange_compose(data, pos, p13, p14);
    assert(data.subrange(pos, p14) == bytes_of_str("{\"id\":"@) + jstr(s.id@) + bytes_of_str(",\"timestamp\":"@) + ts_quoted(s.timestamp) + bytes_of_str(",\"tenant\":"@) + jstr(s.tenant@) + bytes_of_str(",\"service\":"@) + jstr(service_tag(s.service)) + bytes_of_str(",\"user\":"@) + opt_str_json(s.user) + bytes_of_str(",\"parent\":"@) + opt_str_json(s.parent) + bytes_of_str(",\"tree\":{\"nodes\":["@) + nodes_json_from(s.tree.nodes@, 0) + seq![93u8] + bytes_of_str(",\"delta_tokens\":"@));
    crate::jsonfmt::lemma_subrange_compose(data, pos, p14, p15);
    assert(data.subrange(pos, p15) == bytes_of_str("{\"id\":"@) + jstr(s.id@) + bytes_of_str(",\"timestamp\":"@) + ts_quoted(s.timestamp) + bytes_of_str(",\"tenant\":"@) + jstr(s.tenant@) + bytes_of_str(",\"service\":"@) + jstr(service_tag(s.service)) + bytes_of_str(",\"user\":"@) + opt_str_json(s.user) + bytes_of_str(",\"parent\":"@) + opt_str_json(s.parent) + bytes_of_str(",\"tree\":{\"nodes\":["@) + nodes_json_from(s.tree.nodes@, 0) + seq![93u8] + bytes_of_str(",\"delta_tokens\":"@) + pairs_obj_json(s.delta_tokens@));
    crate::jsonfmt::lemma_subrange_compose(data, pos, p15, p16);
    assert(data.subrange(pos, p16) == bytes_of_str("{\"id\":"@) + jstr(s.id@) + bytes_of_str(",\"timestamp\":"@) + ts_quoted(s.timestamp) + bytes_of_str(",\"tenant\":"@) + jstr(s.tenant@) + bytes_of_str(",\"service\":"@) + jstr(service_tag(s.service)) + bytes_of_str(",\"user\":"@) + opt_str_json(s.user) + bytes_of_str(",\"parent\":"@) + opt_str_json(s.parent) + bytes_of_str(",\"tree\":{\"nodes\":["@) + nodes_json_from(s.tree.nodes@, 0) + seq![93u8] + bytes_of_str(",\"delta_tokens\":"@) + pairs_obj_json(s.delta_tokens@) + bytes_of_str(",\"stats\":"@));
    crate::jsonfmt::lemma_subrange_compose(data, pos, p16, p17);
    assert(data.subrange(pos, p17) == bytes_of_str("{\"id\":"@) + jstr(s.id@) + bytes_of_str(",\"timestamp\":"@) + ts_quoted(s.timestamp) + bytes_of_str(",\"tenant\":"@) + jstr(s.tenant@) + bytes_of_str(",\"service\":"@) + jstr(service_tag(s.service)) + bytes_of_str(",\"user\":"@) + opt_str_json(s.user) + bytes_of_str(",\"parent\":"@) + opt_str_json(s.parent) + bytes_of_str(",\"tree\":{\"nodes\":["@) + nodes_json_from(s.tree.nodes@, 0) + seq![93u8] + bytes_of_str(",\"delta_tokens\":"@) + pairs_obj_json(s.delta_tokens@) + bytes_of_str(",\"stats\":"@) + stats_json(s.stats));
    crate::jsonfmt::lemma_subrange_compose(data, pos, p17, p18);
    assert(data.subrange(pos, p18) == bytes_of_str("{\"id\":"@) + jstr(s.id@) + bytes_of_str(",\"timestamp\":"@) + ts_quoted(s.timestamp) + bytes_of_str(",\"tenant\":"@) + jstr(s.tenant@) + bytes_of_str(",\"service\":"@) + jstr(service_tag(s.service)) + bytes_of_str(",\"user\":"@) + opt_str_json(s.user) + bytes_of_str(",\"parent\":"@) + opt_str_json(s.parent) + bytes_of_str(",\"tree\":{\"nodes\":["@) + nodes_json_from(s.tree.nodes@, 0) + seq![93u8] + bytes_of_str(",\"delta_tokens\":"@) + pairs_obj_json(s.delta_tokens@) + bytes_of_str(",\"stats\":"@) + stats_json(s.stats) + seq![125u8]);
}

/// Parses one snapshot document at `pos`: exact in both directions.
#[verifier::loop_isolation(false)]
#[verifier::spinoff_prover]
#[verifier::rlimit(100)]
fn parse_snapshot(data: &Vec<u8>, pos: usize) -> (r: Option<(Snapshot, usize)>)
    requires
        pos <= data@.len(),
    ensures
        r matches Some((s, p)) ==> pos < p <= data@.len() && snap_wf(s) && data@.subrange(
            pos as int,
            p as int,
        ) == snapshot_json(s),
        forall|s0: Snapshot, rest: Seq<u8>|
            #![trigger snapshot_json(s0) + rest]
            data@.skip(pos as int) == snapshot_json(s0) + rest && snap_wf(s0) ==> (r matches Some((s, p)) && snap_matches(s, s0) && p == pos + snapshot_json(
                s0,
            ).len() && data@.skip(p as int) == rest),
{
    proof {
        assert forall|s0: Snapshot, rest: Seq<u8>| data@.skip(pos as int) == snapshot_json(s0) + rest && snap_wf(s0) implies data@.skip(pos as int) == bytes_of_str("{\"id\":"@) + (jstr(s0.id@) + (bytes_of_str(",\"timestamp\":"@) + (ts_quoted(s0.timestamp) + (bytes_of_str(",\"tenant\":"@) + (jstr(s0.tenant@) + (bytes_of_str(",\"service\":"@) + (jstr(service_tag(s0.service)) + (bytes_of_str(",\"user\":"@) + (opt_str_json(s0.user) + (bytes_of_str(",\"parent\":"@) + (opt_str_json(s0.parent) + (bytes_of_str(",\"tree\":{\"nodes\":["@) + (nodes_json_from(s0.tree.nodes@, 0) + (seq![93u8] + (bytes_of_str(",\"delta_tokens\":"@) + (pairs_obj_json(s0.delta_tokens@) + (bytes_of_str(",\"stats\":"@) + (stats_json(s0.stats) + (seq![125u8] + rest))))))))))))))))))) by {
            lemma_snapshot_chain(s0, rest);
        }
    }
    let p0 = match crate::jsonfmt::expect(data, pos, "{\"id\":") {
        Some(p) => p,
        None => {
            proof {
                assert forall|s0: Snapshot, rest: Seq<u8>|
                    data@.skip(pos as int) == snapshot_json(s0) + rest && snap_wf(s0) implies false by {
                    crate::jsonfmt::lemma_starts_with(data@, pos as int, bytes_of_str("{\"id\":"@), jstr(s0.id@) + (bytes_of_str(",\"timestamp\":"@) + (ts_quoted(s0.timestamp) + (bytes_of_str(",\"tenant\":"@) + (jstr(s0.tenant@) + (bytes_of_str(",\"service\":"@) + (jstr(service_tag(s0.service)) + (bytes_of_str(",\"user\":"@) + (opt_str_json(s0.user) + (bytes_of_str(",\"parent\":"@) + (opt_str_json(s0.parent) + (bytes_of_str(",\"tree\":{\"nodes\":["@) + (nodes_json_from(s0.tree.nodes@, 0) + (seq![93u8] + (bytes_of_str(",\"delta_tokens\":"@) + (pairs_obj_json(s0.delta_tokens@) + (bytes_of_str(",\"stats\":"@) + (stats_json(s0.stats) + (seq![125u8] + rest)))))))))))))))))));
                }
            }
            return None;
        },
    };
    proof {
        assert forall|s0: Snapshot, rest: Seq<u8>| data@.skip(pos as int) == snapshot_json(s0) + rest && snap_wf(s0) implies data@.skip(p0 as int) == jstr(s0.id@) + (bytes_of_str(",\"timestamp\":"@) + (ts_quoted(s0.timestamp) + (bytes_of_str(",\"tenant\":"@) + (jstr(s0.tenant@) + (bytes_of_str(",\"service\":"@) + (jstr(service_tag(s0.service)) + (bytes_of_str(",\"user\":"@) + (opt_str_json(s0.user) + (bytes_of_str(",\"parent\":"@) + (opt_str_json(s0.parent) + (bytes_of_str(",\"tree\":{\"nodes\":["@) + (nodes_json_from(s0.tree.nodes@, 0) + (seq![93u8] + (bytes_of_str(",\"delta_tokens\":"@) + (pairs_obj_json(s0.delta_tokens@) + (bytes_of_str(",\"stats\":"@) + (stats_json(s0.stats) + (seq![125u8] + rest)))))))))))))))))) by {
            crate::jsonfmt::lemma_starts_with(data@, pos as int, bytes_of_str("{\"id\":"@), jstr(s0.id@) + (bytes_of_str(",\"timestamp\":"@) + (ts_quoted(s0.timestamp) + (bytes_of_str(",\"tenant\":"@) + (jstr(s0.tenant@) + (bytes_of_str(",\"service\":"@) + (jstr(service_tag(s0.service)) + (bytes_of_str(",\"user\":"@) + (opt_str_json(s0.user) + (bytes_of_str(",\"parent\":"@) + (opt_str_json(s0.parent) + (bytes_of_str(",\"tree\":{\"nodes\":["@) + (nodes_json_from(s0.tree.nodes@, 0) + (seq![93u8] + (bytes_of_str(",\"delta_tokens\":"@) + (pairs_obj_json(s0.delta_tokens@) + (bytes_of_str(",\"stats\":"@) + (stats_json(s0.stats) + (seq![125u8] + rest)))))))))))))))))));
        }
    }
    let (vid, p1) = match crate::jsonfmt::parse_string(data, p0) {
        Some(t) => t,
        None => {
            proof {
                assert forall|s0: Snapshot, rest: Seq<u8>|
                    data@.skip(pos as int) == snapshot_json(s0) + rest && snap_wf(s0) implies false by {
                    assert(data@.skip(p0 as int) == jstr(s0.id@) + (bytes_of_str(",\"timestamp\":"@) + (ts_quoted(s0.timestamp) + (bytes_of_str(",\"tenant\":"@) + (jstr(s0.tenant@) + (bytes_of_str(",\"service\":"@) + (jstr(service_tag(s0.service)) + (bytes_of_str(",\"user\":"@) + (opt_str_json(s0.user) + (bytes_of_str(",\"parent\":"@) + (opt_str_json(s0.parent) + (bytes_of_str(",\"tree\":{\"nodes\":["@) + (nodes_json_from(s0.tree.nodes@, 0) + (seq![93u8] + (bytes_of_str(",\"delta_tokens\":"@) + (pairs_obj_json(s0.delta_tokens@) + (bytes_of_str(",\"stats\":"@) + (stats_json(s0.stats) + (seq![125u8] + rest)))))))))))))))))));
                }
            }
            return None;
        },
    };
    proof {
        assert forall|s0: Snapshot, rest: Seq<u8>| data@.skip(pos as int) == snapshot_json(s0) + rest && snap_wf(s0) implies vid@ == s0.id@ && data@.skip(p1 as int) == bytes_of_str(",\"timestamp\":"@) + (ts_quoted(s0.timestamp) + (bytes_of_str(",\"tenant\":"@) + (jstr(s0.tenant@) + (bytes_of_str(",\"service\":"@) + (jstr(service_tag(s0.service)) + (bytes_of_str(",\"user\":"@) + (opt_str_json(s0.user) + (bytes_of_str(",\"parent\":"@) + (opt_str_json(s0.parent) + (bytes_of_str(",\"tree\":{\"nodes\":["@) + (nodes_json_from(s0.tree.nodes@, 0) + (seq![93u8] + (bytes_of_str(",\"delta_tokens\":"@) + (pairs_obj_json(s0.delta_tokens@) + (bytes_of_str(",\"stats\":"@) + (stats_json(s0.stats) + (seq![125u8] + rest))))))))))))))))) by {
            crate::jsonfmt::lemma_starts_with(data@, p0 as int, jstr(s0.id@), bytes_of_str(",\"timestamp\":"@) + (ts_quoted(s0.timestamp) + (bytes_of_str(",\"tenant\":"@) + (jstr(s0.tenant@) + (bytes_of_str(",\"service\":"@) + (jstr(service_tag(s0.service)) + (bytes_of_str(",\"user\":"@) + (opt_str_json(s0.user) + (bytes_of_str(",\"parent\":"@) + (opt_str_json(s0.parent) + (bytes_of_str(",\"tree\":{\"nodes\":["@) + (nodes_json_from(s0.tree.nodes@, 0) + (seq![93u8] + (bytes_of_str(",\"delta_tokens\":"@) + (pairs_obj_json(s0.delta_tokens@) + (bytes_of_str(",\"stats\":"@) + (stats_json(s0.stats) + (seq![125u8] + rest))))))))))))))))));
        }
    }
    let p2 = match crate::jsonfmt::expect(data, p1, ",\"timestamp\":") {
        Some(p) => p,
        None => {
            proof {
                assert forall|s0: Snapshot, rest: Seq<u8>|
                    data@.skip(pos as int) == snapshot_json(s0) + rest && snap_wf(s0) implies false by {
                    crate::jsonfmt::lemma_starts_with(data@, p1 as int, bytes_of_str(",\"timestamp\":"@), ts_quoted(s0.timestamp) + (bytes_of_str(",\"tenant\":"@) + (jstr(s0.tenant@) + (bytes_of_str(",\"service\":"@) + (jstr(service_tag(s0.service)) + (bytes_of_str(",\"user\":"@) + (opt_str_json(s0.user) + (bytes_of_str(",\"parent\":"@) + (opt_str_json(s0.parent) + (bytes_of_str(",\"tree\":{\"nodes\":["@) + (nodes_json_from(s0.tree.nodes@, 0) + (seq![93u8] + (bytes_of_str(",\"delta_tokens\":"@) + (pairs_obj_json(s0.delta_tokens@) + (bytes_of_str(",\"stats\":"@) + (stats_json(s0.stats) + (seq![125u8] + rest)))))))))))))))));
                }
            }
            return None;
        },
    };
    proof {
        assert forall|s0: Snapshot, rest: Seq<u8>| data@.skip(pos as int) == snapshot_json(s0) + rest && snap_wf(s0) implies data@.skip(p2 as int) == ts_quoted(s0.timestamp) + (bytes_of_str(",\"tenant\":"@) + (jstr(s0.tenant@) + (bytes_of_str(",\"service\":"@) + (jstr(service_tag(s0.service)) + (bytes_of_str(",\"user\":"@) + (opt_str_json(s0.user) + (bytes_of_str(",\"parent\":"@) + (opt_str_json(s0.parent) + (bytes_of_str(",\"tree\":{\"nodes\":["@) + (nodes_json_from(s0.tree.nodes@, 0) + (seq![93u8] + (bytes_of_str(",\"delta_tokens\":"@) + (pairs_obj_json(s0.delta_tokens@) + (bytes_of_str(",\"stats\":"@) + (stats_json(s0.stats) + (seq![125u8] + rest)))))))))))))))) by {
            crate::jsonfmt::lemma_starts_with(data@, p1 as int, bytes_of_str(",\"timestamp\":"@), ts_quoted(s0.timestamp) + (bytes_of_str(",\"tenant\":"@) + (jstr(s0.tenant@) + (bytes_of_str(",\"service\":"@) + (jstr(service_tag(s0.service)) + (bytes_of_str(",\"user\":"@) + (opt_str_json(s0.user) + (bytes_of_str(",\"parent\":"@) + (opt_str_json(s0.parent) + (bytes_of_str(",\"tree\":{\"nodes\":["@) + (nodes_json_from(s0.tree.nodes@, 0) + (seq![93u8] + (bytes_of_str(",\"delta_tokens\":"@) + (pairs_obj_json(s0.delta_tokens@) + (bytes_of_str(",\"stats\":"@) + (stats_json(s0.stats) + (seq![125u8] + rest)))))))))))))))));
        }
    }
    let (vts, p3) = match parse_ts_quoted(data, p2) {
        Some(t) => t,
        None => {
            proof {
                assert forall|s0: Snapshot, rest: Seq<u8>|
                    data@.skip(pos as int) == snapshot_json(s0) + rest && snap_wf(s0) implies false by {
                    assert(s0.timestamp.wf());
                    assert(data@.skip(p2 as int) == ts_quoted(s0.timestamp) + (bytes_of_str(",\"tenant\":"@) + (jstr(s0.tenant@) + (bytes_of_str(",\"service\":"@) + (jstr(service_tag(s0.service)) + (bytes_of_str(",\"user\":"@) + (opt_str_json(s0.user) + (bytes_of_str(",\"parent\":"@) + (opt_str_json(s0.parent) + (bytes_of_str(",\"tree\":{\"nodes\":["@) + (nodes_json_from(s0.tree.nodes@, 0) + (seq![93u8] + (bytes_of_str(",\"delta_tokens\":"@) + (pairs_obj_json(s0.delta_tokens@) + (bytes_of_str(",\"stats\":"@) + (stats_json(s0.stats) + (seq![125u8] + rest)))))))))))))))));
                }
            }
            return None;
        },
    };
    proof {
        assert forall|s0: Snapshot, rest: Seq<u8>| data@.skip(pos as int) == snapshot_json(s0) + rest && snap_wf(s0) implies vts == s0.timestamp && data@.skip(p3 as int) == bytes_of_str(",\"tenant\":"@) + (jstr(s0.tenant@) + (bytes_of_str(",\"service\":"@) + (jstr(service_tag(s0.service)) + (bytes_of_str(",\"user\":"@) + (opt_str_json(s0.user) + (bytes_of_str(",\"parent\":"@) + (opt_str_json(s0.parent) + (bytes_of_str(",\"tree\":{\"nodes\":["@) + (nodes_json_from(s0.tree.nodes@, 0) + (seq![93u8] + (bytes_of_str(",\"delta_tokens\":"@) + (pairs_obj_json(s0.delta_tokens@) + (bytes_of_str(",\"stats\":"@) + (stats_json(s0.stats) + (seq![125u8] + rest))))))))))))))) by {
            assert(s0.timestamp.wf());
            crate::timefmt::lemma_ts_text_len(s0.timestamp);
            crate::jsonfmt::lemma_starts_with(data@, p2 as int, ts_quoted(s0.timestamp), bytes_of_str(",\"tenant\":"@) + (jstr(s0.tenant@) + (bytes_of_str(",\"service\":"@) + (jstr(service_tag(s0.service)) + (bytes_of_str(",\"user\":"@) + (opt_str_json(s0.user) + (bytes_of_str(",\"parent\":"@) + (opt_str_json(s0.parent) + (bytes_of_str(",\"tree\":{\"nodes\":["@) + (nodes_json_from(s0.tree.nodes@, 0) + (seq![93u8] + (bytes_of_str(",\"delta_tokens\":"@) + (pairs_obj_json(s0.delta_tokens@) + (bytes_of_str(",\"stats\":"@) + (stats_json(s0.stats) + (seq![125u8] + rest))))))))))))))));
        }
    }
    let p4 = match crate::jsonfmt::expect(data, p3, ",\"tenant\":") {
        Some(p) => p,
        None => {
            proof {
                assert forall|s0: Snapshot, rest: Seq<u8>|
                    data@.skip(pos as int) == snapshot_json(s0) + rest && snap_wf(s0) implies false by {
                    crate::jsonfmt::lemma_starts_with(data@, p3 as int, bytes_of_str(",\"tenant\":"@), jstr(s0.tenant@) + (bytes_of_str(",\"service\":"@) + (jstr(service_tag(s0.service)) + (bytes_of_str(",\"user\":"@) + (opt_str_json(s0.user) + (bytes_of_str(",\"parent\":"@) + (opt_str_json(s0.parent) + (bytes_of_str(",\"tree\":{\"nodes\":["@) + (nodes_json_from(s0.tree.nodes@, 0) + (seq![93u8] + (bytes_of_str(",\"delta_tokens\":"@) + (pairs_obj_json(s0.delta_tokens@) + (bytes_of_str(",\"stats\":"@) + (stats_json(s0.stats) + (seq![125u8] + rest)))))))))))))));
                }
            }
            return None;
        },
    };
    proof {
        assert forall|s0: Snapshot, rest: Seq<u8>| data@.skip(pos as int) == snapshot_json(s0) + rest && snap_wf(s0) implies data@.skip(p4 as int) == jstr(s0.tenant@) + (bytes_of_str(",\"service\":"@) + (jstr(service_tag(s0.service)) + (bytes_of_str(",\"user\":"@) + (opt_str_json(s0.user) + (bytes_of_str(",\"parent\":"@) + (opt_str_json(s0.parent) + (bytes_of_str(",\"tree\":{\"nodes\":["@) + (nodes_json_from(s0.tree.nodes@, 0) + (seq![93u8] + (bytes_of_str(",\"delta_tokens\":"@) + (pairs_obj_json(s0.delta_tokens@) + (bytes_of_str(",\"stats\":"@) + (stats_json(s0.stats) + (seq![125u8] + rest)))))))))))))) by {
            crate::jsonfmt::lemma_starts_with(data@, p3 as int, bytes_of_str(",\"tenant\":"@), jstr(s0.tenant@) + (bytes_of_str(",\"service\":"@) + (jstr(service_tag(s0.service)) + (bytes_of_str(",\"user\":"@) + (opt_str_json(s0.user) + (bytes_of_str(",\"parent\":"@) + (opt_str_json(s0.parent) + (bytes_of_str(",\"tree\":{\"nodes\":["@) + (nodes_json_from(s0.tree.nodes@, 0) + (seq![93u8] + (bytes_of_str(",\"delta_tokens\":"@) + (pairs_obj_json(s0.delta_tokens@) + (bytes_of_str(",\"stats\":"@) + (stats_json(s0.stats) + (seq![125u8] + rest)))))))))))))));
        }
    }
    let (vtenant, p5) = match crate::jsonfmt::parse_string(data, p4) {
        Some(t) => t,
        None => {
            proof {
                assert forall|s0: Snapshot, rest: Seq<u8>|
                    data@.skip(pos as int) == snapshot_json(s0) + rest && snap_wf(s0) implies false by {
                    assert(data@.skip(p4 as int) == jstr(s0.tenant@) + (bytes_of_str(",\"service\":"@) + (jstr(service_tag(s0.service)) + (bytes_of_str(",\"user\":"@) + (opt_str_json(s0.user) + (bytes_of_str(",\"parent\":"@) + (opt_str_json(s0.parent) + (bytes_of_str(",\"tree\":{\"nodes\":["@) + (nodes_json_from(s0.tree.nodes@, 0) + (seq![93u8] + (bytes_of_str(",\"delta_tokens\":"@) + (pairs_obj_json(s0.delta_tokens@) + (bytes_of_str(",\"stats\":"@) + (stats_json(s0.stats) + (seq![125u8] + rest)))))))))))))));
                }
            }
            return None;
        },
    };
    proof {
        assert forall|s0: Snapshot, rest: Seq<u8>| data@.skip(pos as int) == snapshot_json(s0) + rest && snap_wf(s0) implies vtenant@ == s0.tenant@ && data@.skip(p5 as int) == bytes_of_str(",\"service\":"@) + (jstr(service_tag(s0.service)) + (bytes_of_str(",\"user\":"@) + (opt_str_json(s0.user) + (bytes_of_str(",\"parent\":"@) + (opt_str_json(s0.parent) + (bytes_of_str(",\"tree\":{\"nodes\":["@) + (nodes_json_from(s0.tree.nodes@, 0) + (seq![93u8] + (bytes_of_str(",\"delta_tokens\":"@) + (pairs_obj_json(s0.delta_tokens@) + (bytes_of_str(",\"stats\":"@) + (stats_json(s0.stats) + (seq![125u8] + rest))))))))))))) by {
            crate::jsonfmt::lemma_starts_with(data@, p4 as int, jstr(s0.tenant@), bytes_of_str(",\"service\":"@) + (jstr(service_tag(s0.service)) + (bytes_of_str(",\"user\":"@) + (opt_str_json(s0.user) + (bytes_of_str(",\"parent\":"@) + (opt_str_json(s0.parent) + (bytes_of_str(",\"tree\":{\"nodes\":["@) + (nodes_json_from(s0.tree.nodes@, 0) + (seq![93u8] + (bytes_of_str(",\"delta_tokens\":"@) + (pairs_obj_json(s0.delta_tokens@) + (bytes_of_str(",\"stats\":"@) + (stats_json(s0.stats) + (seq![125u8] + rest))))))))))))));
        }
    }
    let p6 = match crate::jsonfmt::expect(data, p5, ",\"service\":") {
        Some(p) => p,
        None => {
            proof {
                assert forall|s0: Snapshot, rest: Seq<u8>|
                    data@.skip(pos as int) == snapshot_json(s0) + rest && snap_wf(s0) implies false by {
                    crate::jsonfmt::lemma_starts_with(data@, p5 as int, bytes_of_str(",\"service\":"@), jstr(service_tag(s0.service)) + (bytes_of_str(",\"user\":"@) + (opt_str_json(s0.user) + (bytes_of_str(",\"parent\":"@) + (opt_str_json(s0.parent) + (bytes_of_str(",\"tree\":{\"nodes\":["@) + (nodes_json_from(s0.tree.nodes@, 0) + (seq![93u8] + (bytes_of_str(",\"delta_tokens\":"@) + (pairs_obj_json(s0.delta_tokens@) + (bytes_of_str(",\"stats\":"@) + (stats_json(s0.stats) + (seq![125u8] + rest)))))))))))));
                }
            }
            return None;
        },
    };
    proof {
        assert forall|s0: Snapshot, rest: Seq<u8>| data@.skip(pos as int) == snapshot_json(s0) + rest && snap_wf(s0) implies data@.skip(p6 as int) == jstr(service_tag(s0.service)) + (bytes_of_str(",\"user\":"@) + (opt_str_json(s0.user) + (bytes_of_str(",\"parent\":"@) + (opt_str_json(s0.parent) + (bytes_of_str(",\"tree\":{\"nodes\":["@) + (nodes_json_from(s0.tree.nodes@, 0) + (seq![93u8] + (bytes_of_str(",\"delta_tokens\":"@) + (pairs_obj_json(s0.delta_tokens@) + (bytes_of_str(",\"stats\":"@) + (stats_json(s0.stats) + (seq![125u8] + rest)))))))))))) by {
            crate::jsonfmt::lemma_starts_with(data@, p5 as int, bytes_of_str(",\"service\":"@), jstr(service_tag(s0.service)) + (bytes_of_str(",\"user\":"@) + (opt_str_json(s0.user) + (bytes_of_str(",\"parent\":"@) + (opt_str_json(s0.parent) + (bytes_of_str(",\"tree\":{\"nodes\":["@) + (nodes_json_from(s0.tree.nodes@, 0) + (seq![93u8] + (bytes_of_str(",\"delta_tokens\":"@) + (pairs_obj_json(s0.delta_tokens@) + (bytes_of_str(",\"stats\":"@) + (stats_json(s0.stats) + (seq![125u8] + rest)))))))))))));
        }
    }
    let (vservice, p7) = match parse_service(data, p6) {
        Some(t) => t,
        None => {
            proof {
                assert forall|s0: Snapshot, rest: Seq<u8>|
                    data@.skip(pos as int) == snapshot_json(s0) + rest && snap_wf(s0) implies false by {
                    assert(data@.skip(p6 as int) == jstr(service_tag(s0.service)) + (bytes_of_str(",\"user\":"@) + (opt_str_json(s0.user) + (bytes_of_str(",\"parent\":"@) + (opt_str_json(s0.parent) + (bytes_of_str(",\"tree\":{\"nodes\":["@) + (nodes_json_from(s0.tree.nodes@, 0) + (seq![93u8] + (bytes_of_str(",\"delta_tokens\":"@) + (pairs_obj_json(s0.delta_tokens@) + (bytes_of_str(",\"stats\":"@) + (stats_json(s0.stats) + (seq![125u8] + rest)))))))))))));
                }
            }
            return None;
        },
    };
    proof {
        assert forall|s0: Snapshot, rest: Seq<u8>| data@.skip(pos as int) == snapshot_json(s0) + rest && snap_wf(s0) implies vservice == s0.service && data@.skip(p7 as int) == bytes_of_str(",\"user\":"@) + (opt_str_json(s0.user) + (bytes_of_str(",\"parent\":"@) + (opt_str_json(s0.parent) + (bytes_of_str(",\"tree\":{\"nodes\":["@) + (nodes_json_from(s0.tree.nodes@, 0) + (seq![93u8] + (bytes_of_str(",\"delta_tokens\":"@) + (pairs_obj_json(s0.delta_tokens@) + (bytes_of_str(",\"stats\":"@) + (stats_json(s0.stats) + (seq![125u8] + rest))))))))))) by {
            crate::jsonfmt::lemma_starts_with(data@, p6 as int, jstr(service_tag(s0.service)), bytes_of_str(",\"user\":"@) + (opt_str_json(s0.user) + (bytes_of_str(",\"parent\":"@) + (opt_str_json(s0.parent) + (bytes_of_str(",\"tree\":{\"nodes\":["@) + (nodes_json_from(s0.tree.nodes@, 0) + (seq![93u8] + (bytes_of_str(",\"delta_tokens\":"@) + (pairs_obj_json(s0.delta_tokens@) + (bytes_of_str(",\"stats\":"@) + (stats_json(s0.stats) + (seq![125u8] + rest))))))))))));
        }
    }
    let p8 = match crate::jsonfmt::expect(data, p7, ",\"user\":") {
        Some(p) => p,
        None => {
            proof {
                assert forall|s0: Snapshot, rest: Seq<u8>|
                    data@.skip(pos as int) == snapshot_json(s0) + rest && snap_wf(s0) implies false by {
                    crate::jsonfmt::lemma_starts_with(data@, p7 as int, bytes_of_str(",\"user\":"@), opt_str_json(s0.user) + (bytes_of_str(",\"parent\":"@) + (opt_str_json(s0.parent) + (bytes_of_str(",\"tree\":{\"nodes\":["@) + (nodes_json_from(s0.tree.nodes@, 0) + (seq![93u8] + (bytes_of_str(",\"delta_tokens\":"@) + (pairs_obj_json(s0.delta_tokens@) + (bytes_of_str(",\"stats\":"@) + (stats_json(s0.stats) + (seq![125u8] + rest)))))))))));
                }
            }
            return None;
        },
    };
    proof {
        assert forall|s0: Snapshot, rest: Seq<u8>| data@.skip(pos as int) == snapshot_json(s0) + rest && snap_wf(s0) implies data@.skip(p8 as int) == opt_str_json(s0.user) + (bytes_of_str(",\"parent\":"@) + (opt_str_json(s0.parent) + (bytes_of_str(",\"tree\":{\"nodes\":["@) + (nodes_json_from(s0.tree.nodes@, 0) + (seq![93u8] + (bytes_of_str(",\"delta_tokens\":"@) + (pairs_obj_json(s0.delta_tokens@) + (bytes_of_str(",\"stats\":"@) + (stats_json(s0.stats) + (seq![125u8] + rest)))))))))) by {
            crate::jsonfmt::lemma_starts_with(data@, p7 as int, bytes_of_str(",\"user\":"@), opt_str_json(s0.user) + (bytes_of_str(",\"parent\":"@) + (opt_str_json(s0.parent) + (bytes_of_str(",\"tree\":{\"nodes\":["@) + (nodes_json_from(s0.tree.nodes@, 0) + (seq![93u8] + (bytes_of_str(",\"delta_tokens\":"@) + (pairs_obj_json(s0.delta_tokens@) + (bytes_of_str(",\"stats\":"@) + (stats_json(s0.stats) + (seq![125u8] + rest)))))))))));
        }
    }
    let (vuser, p9) = match parse_opt_string(data, p8) {
        Some(t) => t,
        None => {
            proof {
                assert forall|s0: Snapshot, rest: Seq<u8>|
                    data@.skip(pos as int) == snapshot_json(s0) + rest && snap_wf(s0) implies false by {
                    assert(data@.skip(p8 as int) == opt_str_json(s0.user) + (bytes_of_str(",\"parent\":"@) + (opt_str_json(s0.parent) + (bytes_of_str(",\"tree\":{\"nodes\":["@) + (nodes_json_from(s0.tree.nodes@, 0) + (seq![93u8] + (bytes_of_str(",\"delta_tokens\":"@) + (pairs_obj_json(s0.delta_tokens@) + (bytes_of_str(",\"stats\":"@) + (stats_json(s0.stats) + (seq![125u8] + rest)))))))))));
                }
            }
            return None;
        },
    };
    proof {
        assert forall|s0: Snapshot, rest: Seq<u8>| data@.skip(pos as int) == snapshot_json(s0) + rest && snap_wf(s0) implies opt_str_matches(vuser, s0.user) && data@.skip(p9 as int) == bytes_of_str(",\"parent\":"@) + (opt_str_json(s0.parent) + (bytes_of_str(",\"tree\":{\"nodes\":["@) + (nodes_json_from(s0.tree.nodes@, 0) + (seq![93u8] + (bytes_of_str(",\"delta_tokens\":"@) + (pairs_obj_json(s0.delta_tokens@) + (bytes_of_str(",\"stats\":"@) + (stats_json(s0.stats) + (seq![125u8] + rest))))))))) by {
            crate::jsonfmt::lemma_starts_with(data@, p8 as int, opt_str_json(s0.user), bytes_of_str(",\"parent\":"@) + (opt_str_json(s0.parent) + (bytes_of_str(",\"tree\":{\"nodes\":["@) + (nodes_json_from(s0.tree.nodes@, 0) + (seq![93u8] + (bytes_of_str(",\"delta_tokens\":"@) + (pairs_obj_json(s0.delta_tokens@) + (bytes_of_str(",\"stats\":"@) + (stats_json(s0.stats) + (seq![125u8] + rest))))))))));
        }
    }
    let p10 = match crate::jsonfmt::expect(data, p9, ",\"parent\":") {
        Some(p) => p,
        None => {
            proof {
                assert forall|s0: Snapshot, rest: Seq<u8>|
                    data@.skip(pos as int) == snapshot_json(s0) + rest && snap_wf(s0) implies false by {
                    crate::jsonfmt::lemma_starts_with(data@, p9 as int, bytes_of_str(",\"parent\":"@), opt_str_json(s0.parent) + (bytes_of_str(",\"tree\":{\"nodes\":["@) + (nodes_json_from(s0.tree.nodes@, 0) + (seq![93u8] + (bytes_of_str(",\"delta_tokens\":"@) + (pairs_obj_json(s0.delta_tokens@) + (bytes_of_str(",\"stats\":"@) + (stats_json(s0.stats) + (seq![125u8] + rest)))))))));
                }
            }
            return None;
        },
    };
    proof {
        assert forall|s0: Snapshot, rest: Seq<u8>| data@.skip(pos as int) == snapshot_json(s0) + rest && snap_wf(s0) implies data@.skip(p10 as int) == opt_str_json(s0.parent) + (bytes_of_str(",\"tree\":{\"nodes\":["@) + (nodes_json_from(s0.tree.nodes@, 0) + (seq![93u8] + (bytes_of_str(",\"delta_tokens\":"@) + (pairs_obj_json(s0.delta_tokens@) + (bytes_of_str(",\"stats\":"@) + (stats_json(s0.stats) + (seq![125u8] + rest)))))))) by {
            crate::jsonfmt::lemma_starts_with(data@, p9 as int, bytes_of_str(",\"parent\":"@), opt_str_json(s0.parent) + (bytes_of_str(",\"tree\":{\"nodes\":["@) + (nodes_json_from(s0.tree.nodes@, 0) + (seq![93u8] + (bytes_of_str(",\"delta_tokens\":"@) + (pairs_obj_json(s0.delta_tokens@) + (bytes_of_str(",\"stats\":"@) + (stats_json(s0.stats) + (seq![125u8] + rest)))))))));
        }
    }
    let (vparent, p11) = match parse_opt_string(data, p10) {
        Some(t) => t,
        None => {
            proof {
                assert forall|s0: Snapshot, rest: Seq<u8>|
                    data@.skip(pos as int) == snapshot_json(s0) + rest && snap_wf(s0) implies false by {
                    assert(data@.skip(p10 as int) == opt_str_json(s0.parent) + (bytes_of_str(",\"tree\":{\"nodes\":["@) + (nodes_json_from(s0.tree.nodes@, 0) + (seq![93u8] + (bytes_of_str(",\"delta_tokens\":"@) + (pairs_obj_json(s0.delta_tokens@) + (bytes_of_str(",\"stats\":"@) + (stats_json(s0.stats) + (seq![125u8] + rest)))))))));
                }
            }
            return None;
        },
    };
    proof {
        assert forall|s0: Snapshot, rest: Seq<u8>| data@.skip(pos as int) == snapshot_json(s0) + rest && snap_wf(s0) implies opt_str_matches(vparent, s0.parent) && data@.skip(p11 as int) == bytes_of_str(",\"tree\":{\"nodes\":["@) + (nodes_json_from(s0.tree.nodes@, 0) + (seq![93u8] + (bytes_of_str(",\"delta_tokens\":"@) + (pairs_obj_json(s0.delta_tokens@) + (bytes_of_str(",\"stats\":"@) + (stats_json(s0.stats) + (seq![125u8] + rest))))))) by {
            crate::jsonfmt::lemma_starts_with(data@, p10 as int, opt_str_json(s0.parent), bytes_of_str(",\"tree\":{\"nodes\":["@) + (nodes_json_from(s0.tree.nodes@, 0) + (seq![93u8] + (bytes_of_str(",\"delta_tokens\":"@) + (pairs_obj_json(s0.delta_tokens@) + (bytes_of_str(",\"stats\":"@) + (stats_json(s0.stats) + (seq![125u8] + rest))))))));
        }
    }
    let p12 = match crate::jsonfmt::expect(data, p11, ",\"tree\":{\"nodes\":[") {
        Some(p) => p,
        None => {
            proof {
                assert forall|s0: Snapshot, rest: Seq<u8>|
                    data@.skip(pos as int) == snapshot_json(s0) + rest && snap_wf(s0) implies false by {
                    crate::jsonfmt::lemma_starts_with(data@, p11 as int, bytes_of_str(",\"tree\":{\"nodes\":["@), nodes_json_from(s0.tree.nodes@, 0) + (seq![93u8] + (bytes_of_str(",\"delta_tokens\":"@) + (pairs_obj_json(s0.delta_tokens@) + (bytes_of_str(",\"stats\":"@) + (stats_json(s0.stats) + (seq![125u8] + rest)))))));
                }
            }
            return None;
        },
    };
    proof {
        assert forall|s0: Snapshot, rest: Seq<u8>| data@.skip(pos as int) == snapshot_json(s0) + rest && snap_wf(s0) implies data@.skip(p12 as int) == nodes_json_from(s0.tree.nodes@, 0) + (seq![93u8] + (bytes_of_str(",\"delta_tokens\":"@) + (pairs_obj_json(s0.delta_tokens@) + (bytes_of_str(",\"stats\":"@) + (stats_json(s0.stats) + (seq![125u8] + rest)))))) by {
            crate::jsonfmt::lemma_starts_with(data@, p11 as int, bytes_of_str(",\"tree\":{\"nodes\":["@), nodes_json_from(s0.tree.nodes@, 0) + (seq![93u8] + (bytes_of_str(",\"delta_tokens\":"@) + (pairs_obj_json(s0.delta_tokens@) + (bytes_of_str(",\"stats\":"@) + (stats_json(s0.stats) + (seq![125u8] + rest)))))));
        }
    }
    let (vnodes, p13) = match parse_nodes_arr(data, p12) {
        Some(t) => t,
        None => {
            proof {
                assert forall|s0: Snapshot, rest: Seq<u8>|
                    data@.skip(pos as int) == snapshot_json(s0) + rest && snap_wf(s0) implies false by {
                    assert(nodes_wf(s0.tree.nodes@)) by {
                        assert forall|i: int| 0 <= i < s0.tree.nodes@.len() implies ((
                        #[trigger] s0.tree.nodes@[i]).modified matches Some(t) ==> t.wf()) by {}
                    }
                }
            }
            return None;
        },
    };
    proof {
        assert forall|s0: Snapshot, rest: Seq<u8>| data@.skip(pos as int) == snapshot_json(s0) + rest && snap_wf(s0) implies vnodes@.len() == s0.tree.nodes@.len() && (forall|m: int|
            0 <= m < s0.tree.nodes@.len() ==> node_matches(#[trigger] vnodes@[m], s0.tree.nodes@[m]))
            && data@.skip(p13 as int) == bytes_of_str(",\"delta_tokens\":"@) + (pairs_obj_json(s0.delta_tokens@) + (bytes_of_str(",\"stats\":"@) + (stats_json(s0.stats) + (seq![125u8] + rest)))) by {
            assert(nodes_wf(s0.tree.nodes@)) by {
                assert forall|i: int| 0 <= i < s0.tree.nodes@.len() implies ((
                #[trigger] s0.tree.nodes@[i]).modified matches Some(t) ==> t.wf()) by {}
            }
        }
    }
    let p14 = match crate::jsonfmt::expect(data, p13, ",\"delta_tokens\":") {
        Some(p) => p,
        None => {
            proof {
                assert forall|s0: Snapshot, rest: Seq<u8>|
                    data@.skip(pos as int) == snapshot_json(s0) + rest && snap_wf(s0) implies false by {
                    crate::jsonfmt::lemma_starts_with(data@, p13 as int, bytes_of_str(",\"delta_tokens\":"@), pairs_obj_json(s0.delta_tokens@) + (bytes_of_str(",\"stats\":"@) + (stats_json(s0.stats) + (seq![125u8] + rest))));
                }
            }
            return None;
        },
    };
    proof {
        assert forall|s0: Snapshot, rest: Seq<u8>| data@.skip(pos as int) == snapshot_json(s0) + rest && snap_wf(s0) implies data@.skip(p14 as int) == pairs_obj_json(s0.delta_tokens@) + (bytes_of_str(",\"stats\":"@) + (stats_json(s0.stats) + (seq![125u8] + rest))) by {
            crate::jsonfmt::lemma_starts_with(data@, p13 as int, bytes_of_str(",\"delta_tokens\":"@), pairs_obj_json(s0.delta_tokens@) + (bytes_of_str(",\"stats\":"@) + (stats_json(s0.stats) + (seq![125u8] + rest))));
        }
    }
    let (vdt, p15) = match parse_pairs_obj(data, p14) {
        Some(t) => t,
        None => {
            proof {
                assert forall|s0: Snapshot, rest: Seq<u8>|
                    data@.skip(pos as int) == snapshot_json(s0) + rest && snap_wf(s0) implies false by {

                }
            }
            return None;
        },
    };
    proof {
        assert forall|s0: Snapshot, rest: Seq<u8>| data@.skip(pos as int) == snapshot_json(s0) + rest && snap_wf(s0) implies pairs_match(vdt@, s0.delta_tokens@) && data@.skip(p15 as int)
            == bytes_of_str(",\"stats\":"@) + (stats_json(s0.stats) + (seq![125u8] + rest)) by {}
    }
    let p16 = match crate::jsonfmt::expect(data, p15, ",\"stats\":") {
        Some(p) => p,
        None => {
            proof {
                assert forall|s0: Snapshot, rest: Seq<u8>|
                    data@.skip(pos as int) == snapshot_json(s0) + rest && snap_wf(s0) implies false by {
                    crate::jsonfmt::lemma_starts_with(data@, p15 as int, bytes_of_str(",\"stats\":"@), stats_json(s0.stats) + (seq![125u8] + rest));
                }
            }
            return None;
        },
    };
    proof {
        assert forall|s0: Snapshot, rest: Seq<u8>| data@.skip(pos as int) == snapshot_json(s0) + rest && snap_wf(s0) implies data@.skip(p16 as int) == stats_json(s0.stats) + (seq![125u8] + rest) by {
            crate::jsonfmt::lemma_starts_with(data@, p15 as int, bytes_of_str(",\"stats\":"@), stats_json(s0.stats) + (seq![125u8] + rest));
        }
    }
    let (vstats, p17) = match parse_stats(data, p16) {
        Some(t) => t,
        None => {
            proof {
                assert forall|s0: Snapshot, rest: Seq<u8>|
                    data@.skip(pos as int) == snapshot_json(s0) + rest && snap_wf(s0) implies false by {

                }
            }
            return None;
        },
    };
    proof {
        assert forall|s0: Snapshot, rest: Seq<u8>| data@.skip(pos as int) == snapshot_json(s0) + rest && snap_wf(s0) implies vstats == s0.stats && data@.skip(p17 as int) == seq![125u8] + rest by {
            crate::jsonfmt::lemma_starts_with(data@, p16 as int, stats_json(s0.stats), seq![125u8] + rest);
        }
    }
    let p18 = match crate::jsonfmt::expect_byte(data, p17, 125) {
        Some(p) => p,
        None => {
            proof {
                assert forall|s0: Snapshot, rest: Seq<u8>|
                    data@.skip(pos as int) == snapshot_json(s0) + rest && snap_wf(s0) implies false by {
                    assert(data@.skip(p17 as int) == seq![125u8] + rest);
                    assert(data@.skip(p17 as int)[0] == data@[p17 as int]);
                }
            }
            return None;
        },
    };
    let s = Snapshot {
        id: vid,
        timestamp: vts,
        tenant: vtenant,
        service: vservice,
        user: vuser,
        parent: vparent,
        tree: Tree { nodes: vnodes },
        delta_tokens: vdt,
        stats: vstats,
    };
    proof {
        assert(data@.subrange(p17 as int, p18 as int) =~= seq![125u8]);
        assert forall|i: int| 0 <= i < s.tree.nodes@.len() implies match (
        #[trigger] s.tree.nodes@[i]).modified {
            Option::None => true,
            Option::Some(t) => t.wf(),
        } by {
            assert(s.tree.nodes@[i].modified matches Some(t) ==> t.wf());
        }
        lemma_snapshot_stitch(
            data@,
            pos as int,
            p0 as int,
            p1 as int,
            p2 as int,
            p3 as int,
            p4 as int,
            p5 as int,
            p6 as int,
            p7 as int,
            p8 as int,
            p9 as int,
            p10 as int,
            p11 as int,
            p12 as int,
            p13 as int,
            p14 as int,
            p15 as int,
            p16 as int,
            p17 as int,
            p18 as int,
            s,
        );
        assert forall|s0: Snapshot, rest: Seq<u8>| data@.skip(pos as int) == snapshot_json(s0) + rest && snap_wf(s0) implies snap_matches(s, s0) && p18 == pos + snapshot_json(
            s0,
        ).len() && data@.skip(p18 as int) == rest by {
            crate::jsonfmt::lemma_starts_with(data@, p17 as int, seq![125u8], rest);
            assert((snapshot_json(s0) + rest).len() == snapshot_json(s0).len() + rest.len());
            assert(data@.skip(pos as int).len() == data@.len() - pos);
            assert(data@.skip(p18 as int).len() == data@.len() - p18);
        }
    }
    Some((s, p18))
}

/// The completeness facts carried through the node-array loop: for any
/// emitted list the parsed prefix agrees and the tail is positioned.
pub open spec fn nav_inv(data: Seq<u8>, pos: int, cur: int, v: Seq<TreeNode>) -> bool {
    forall|s0: Seq<TreeNode>, rest: Seq<u8>|
        #![trigger nodes_json_from(s0, 0) + (seq![93u8] + rest)]
        data.skip(pos) == nodes_json_from(s0, 0) + (seq![93u8] + rest) && nodes_wf(s0) ==> {
            let k = v.len() as int;
            &&& k <= s0.len()
            &&& (forall|m: int| 0 <= m < k ==> node_matches(#[trigger] v[m], s0[m]))
            &&& (k == s0.len() ==> data.skip(cur) == seq![93u8] + rest)
            &&& (k < s0.len() && k == 0 ==> data.skip(cur) == nodes_json_from(s0, 0) + (
            seq![93u8] + rest))
            &&& (k < s0.len() && k > 0 ==> data.skip(cur) == seq![44u8] + (nodes_json_from(
                s0,
                k,
            ) + (seq![93u8] + rest)))
        }
}

/// At the end of the input no emitted list can still be pending.
proof fn lemma_nav_end(data: Seq<u8>, pos: int, cur: int, v: Seq<TreeNode>)
    requires
        0 <= pos <= cur <= data.len(),
        cur == data.len(),
        nav_inv(data, pos, cur, v),
    ensures
        forall|s0: Seq<TreeNode>, rest: Seq<u8>|
            #![trigger nodes_json_from(s0, 0) + (seq![93u8] + rest)]
            !(data.skip(pos) == nodes_json_from(s0, 0) + (seq![93u8] + rest) && nodes_wf(s0)),
{
    assert forall|s0: Seq<TreeNode>, rest: Seq<u8>| data.skip(pos) == nodes_json_from(s0, 0) + (seq![93u8] + rest) && nodes_wf(s0) implies false by {
        let k = v.len() as int;
        assert(data.skip(cur).len() == 0);
        if k < s0.len() {
            lemma_node_head(s0, k);
        }
    }
}

/// On the closing bracket the whole emitted list has been read.
proof fn lemma_nav_closer(data: Seq<u8>, pos: int, cur: int, v: Seq<TreeNode>)
    requires
        0 <= pos <= cur < data.len(),
        data[cur] == 93,
        nav_inv(data, pos, cur, v),
    ensures
        forall|s0: Seq<TreeNode>, rest: Seq<u8>|
            #![trigger nodes_json_from(s0, 0) + (seq![93u8] + rest)]
            data.skip(pos) == nodes_json_from(s0, 0) + (seq![93u8] + rest) && nodes_wf(s0) ==> (v.len() == s0.len() && (forall|m: int|
                0 <= m < s0.len() ==> node_matches(#[trigger] v[m], s0[m])) && cur + 1 == pos
                + nodes_json_from(s0, 0).len() + 1 && data.skip(cur + 1) == rest),
{
    assert forall|s0: Seq<TreeNode>, rest: Seq<u8>| data.skip(pos) == nodes_json_from(s0, 0) + (seq![93u8] + rest) && nodes_wf(s0) implies (v.len() == s0.len() && (forall|
        m: int,
    |
        0 <= m < s0.len() ==> node_matches(#[trigger] v[m], s0[m])) && cur + 1 == pos
        + nodes_json_from(s0, 0).len() + 1 && data.skip(cur + 1) == rest) by {
        let k = v.len() as int;
        assert(data.skip(cur)[0] == data[cur]);
        if k < s0.len() {
            lemma_node_head(s0, k);
            if k == 0 {
                assert((nodes_json_from(s0, 0) + (seq![93u8] + rest))[0] == nodes_json_from(
                    s0,
                    0,
                )[0]);
            } else {
                assert((seq![44u8] + (nodes_json_from(s0, k) + (seq![93u8] + rest)))[0] == 44);
            }
        }
        assert(data.skip(cur) == seq![93u8] + rest);
        crate::jsonfmt::lemma_starts_with(data, cur, seq![93u8], rest);
        assert((nodes_json_from(s0, 0) + (seq![93u8] + rest)).len() == nodes_json_from(
            s0,
            0,
        ).len() + 1 + rest.len());
        assert(data.skip(pos).len() == data.len() - pos);
    }
}

/// Off the closing bracket a further element is owed, and it starts at
/// `pstart`, past the separating comma where one is due.
proof fn lemma_nav_advance(data: Seq<u8>, pos: int, cur: int, pstart: int, v: Seq<TreeNode>)
    requires
        0 <= pos <= cur < data.len(),
        data[cur] != 93,
        v.len() == 0 ==> pstart == cur,
        v.len() > 0 ==> pstart == cur + 1,
        pstart <= data.len(),
        nav_inv(data, pos, cur, v),
    ensures
        forall|s0: Seq<TreeNode>, rest: Seq<u8>|
            #![trigger nodes_json_from(s0, 0) + (seq![93u8] + rest)]
            data.skip(pos) == nodes_json_from(s0, 0) + (seq![93u8] + rest) && nodes_wf(s0) ==> (v.len() < s0.len() && data.skip(pstart) == node_json(s0[v.len() as int]) + (
            node_sep(s0, v.len() as int) + (seq![93u8] + rest)) && (s0[v.len() as int].modified
                matches Some(t) ==> t.wf())),
{
    assert forall|s0: Seq<TreeNode>, rest: Seq<u8>| data.skip(pos) == nodes_json_from(s0, 0) + (seq![93u8] + rest) && nodes_wf(s0) implies (v.len() < s0.len() && data.skip(
        pstart,
    ) == node_json(s0[v.len() as int]) + (node_sep(s0, v.len() as int) + (seq![93u8] + rest)) && (
    s0[v.len() as int].modified matches Some(t) ==> t.wf())) by {
        let k = v.len() as int;
        assert(data.skip(cur)[0] == data[cur]);
        if k == s0.len() {
            assert(data.skip(cur) == seq![93u8] + rest);
            assert((seq![93u8] + rest)[0] == 93);
        }
        assert(k < s0.len());
        assert(data.skip(pstart) == nodes_json_from(s0, k) + (seq![93u8] + rest)) by {
            if k > 0 {
                crate::jsonfmt::lemma_starts_with(
                    data,
                    cur,
                    seq![44u8],
                    nodes_json_from(s0, k) + (seq![93u8] + rest),
                );
            }
        }
        lemma_node_head(s0, k);
        crate::jsonfmt::lemma_add_assoc(node_json(s0[k]), node_sep(s0, k), seq![93u8] + rest);
        assert(s0[k].modified matches Some(t) ==> t.wf());
    }
}

/// After one element is read and appended, the loop facts hold again.
#[verifier::spinoff_prover]
#[verifier::rlimit(100)]
proof fn lemma_nav_push(
    data: Seq<u8>,
    pos: int,
    pstart: int,
    q: int,
    ov: Seq<TreeNode>,
    c: TreeNode,
)
    requires
        forall|s0: Seq<TreeNode>, rest: Seq<u8>|
            #![trigger nodes_json_from(s0, 0) + (seq![93u8] + rest)]
            data.skip(pos) == nodes_json_from(s0, 0) + (seq![93u8] + rest) && nodes_wf(s0) ==> (ov.len() < s0.len() && (forall|m: int|
                0 <= m < ov.len() ==> node_matches(#[trigger] ov[m], s0[m])) && data.skip(
                pstart,
            ) == node_json(s0[ov.len() as int]) + (node_sep(s0, ov.len() as int) + (seq![93u8]
                + rest)) && (s0[ov.len() as int].modified matches Some(t) ==> t.wf())),
        forall|n0: TreeNode, restn: Seq<u8>|
            #![trigger node_json(n0) + restn]
            data.skip(pstart) == node_json(n0) + restn && (n0.modified matches Some(mt)
                ==> mt.wf()) ==> (node_matches(c, n0) && q == pstart + node_json(n0).len()
                && data.skip(q) == restn),
    ensures
        nav_inv(data, pos, q, ov.push(c)),
{
    assert forall|s0: Seq<TreeNode>, rest: Seq<u8>| data.skip(pos) == nodes_json_from(s0, 0) + (seq![93u8] + rest) && nodes_wf(s0) implies {
        let k = ov.push(c).len() as int;
        &&& k <= s0.len()
        &&& (forall|m: int| 0 <= m < k ==> node_matches(#[trigger] ov.push(c)[m], s0[m]))
        &&& (k == s0.len() ==> data.skip(q) == seq![93u8] + rest)
        &&& (k < s0.len() && k == 0 ==> data.skip(q) == nodes_json_from(s0, 0) + (seq![93u8]
            + rest))
        &&& (k < s0.len() && k > 0 ==> data.skip(q) == seq![44u8] + (nodes_json_from(s0, k) + (
        seq![93u8] + rest)))
    } by {
        let k0 = ov.len() as int;
        let k = k0 + 1;
        assert(data.skip(pstart) == node_json(s0[k0]) + (node_sep(s0, k0) + (seq![93u8]
            + rest)));
        assert(node_matches(c, s0[k0]) && q == pstart + node_json(s0[k0]).len() && data.skip(q)
            == node_sep(s0, k0) + (seq![93u8] + rest));
        assert(forall|m: int| 0 <= m < k0 ==> ov.push(c)[m] == ov[m]);
        assert(ov.push(c)[k0] == c);
        if k == s0.len() {
            assert(node_sep(s0, k0) =~= Seq::<u8>::empty());
            assert(Seq::<u8>::empty() + (seq![93u8] + rest) =~= seq![93u8] + rest);
        } else {
            assert(node_sep(s0, k0) == seq![44u8] + nodes_json_from(s0, k));
            crate::jsonfmt::lemma_add_assoc(
                seq![44u8],
                nodes_json_from(s0, k),
                seq![93u8] + rest,
            );
        }
    }
}

/// Parses the elements of a node array and its closing bracket: exact in
/// both directions.
#[verifier::loop_isolation(false)]
#[verifier::spinoff_prover]
#[verifier::rlimit(100)]
fn parse_nodes_arr(data: &Vec<u8>, pos: usize) -> (r: Option<(Vec<TreeNode>, usize)>)
    requires
        pos <= data@.len(),
    ensures
        r matches Some((v, p)) ==> pos < p <= data@.len() && data@.subrange(pos as int, p as int)
            == nodes_json_from(v@, 0) + seq![93u8] && (forall|i: int|
            0 <= i < v@.len() ==> ((#[trigger] v@[i]).modified matches Some(t) ==> t.wf())),
        forall|s0: Seq<TreeNode>, rest: Seq<u8>|
            #![trigger nodes_json_from(s0, 0) + (seq![93u8] + rest)]
            data@.skip(pos as int) == nodes_json_from(s0, 0) + (seq![93u8] + rest) && nodes_wf(
                s0,
            ) ==> (r matches Some((v, p)) && v@.len() == s0.len() && (forall|m: int|
                0 <= m < s0.len() ==> node_matches(#[trigger] v@[m], s0[m])) && p == pos
                + nodes_json_from(s0, 0).len() + 1 && data@.skip(p as int) == rest),
{
    let mut v: Vec<TreeNode> = Vec::new();
    let mut cur = pos;
    let mut first = true;
    proof {
        assert(data@.subrange(pos as int, pos as int) =~= nodes_json_from(v@, 0));
    }
    loop
        invariant
            pos <= cur <= data@.len(),
            first <==> v@.len() == 0,
            first ==> cur == pos,
            data@.subrange(pos as int, cur as int) == nodes_json_from(v@, 0),
            forall|i: int|
                0 <= i < v@.len() ==> ((#[trigger] v@[i]).modified matches Some(t) ==> t.wf()),
            nav_inv(data@, pos as int, cur as int, v@),
        decreases data@.len() - cur,
    {
        let ghost k0 = v@.len() as int;
        if cur >= data.len() {
            proof {
                lemma_nav_end(data@, pos as int, cur as int, v@);
            }
            return None;
        }
        if data[cur] == 93 {
            proof {
                lemma_nav_closer(data@, pos as int, cur as int, v@);
                assert(data@.subrange(cur as int, cur + 1) =~= seq![93u8]);
                crate::jsonfmt::lemma_subrange_compose(data@, pos as int, cur as int, cur + 1);
            }
            return Some((v, cur + 1));
        }
        let pstart = if first {
            cur
        } else {
            match crate::jsonfmt::expect_byte(data, cur, 44) {
                Some(p) => p,
                None => {
                    proof {
                        assert forall|s0: Seq<TreeNode>, rest: Seq<u8>|
                            data@.skip(pos as int) == nodes_json_from(s0, 0) + (seq![93u8]
                                + rest) && nodes_wf(s0) implies false by {
                            assert(data@.skip(cur as int)[0] == data@[cur as int]);
                        }
                    }
                    return None;
                },
            }
        };
        proof {
            lemma_nav_advance(data@, pos as int, cur as int, pstart as int, v@);
        }
        let (c, q) = match parse_node(data, pstart) {
            Some(t) => t,
            None => {
                proof {
                    assert forall|s0: Seq<TreeNode>, rest: Seq<u8>|
                        data@.skip(pos as int) == nodes_json_from(s0, 0) + (seq![93u8] + rest)
                            && nodes_wf(s0) implies false by {
                        assert(data@.skip(pstart as int) == node_json(s0[k0]) + (node_sep(
                            s0,
                            k0,
                        ) + (seq![93u8] + rest)));
                    }
                }
                return None;
            },
        };
        let ghost ov = v@;
        v.push(c);
        proof {
            lemma_nav_push(data@, pos as int, pstart as int, q as int, ov, c);
            assert(v@ =~= ov.push(c));
            assert(v@.take(ov.len() as int) =~= ov);
            assert(v@.take(v@.len() as int) =~= v@);
            lemma_nodes_json_snoc(v@, ov.len() as int);
            assert forall|i: int| 0 <= i < v@.len() implies ((#[trigger] v@[i]).modified matches
                Some(t) ==> t.wf()) by {
                if i < ov.len() {
                    assert(v@[i] == ov[i]);
                }
            }
            if first {
                assert(data@.subrange(pos as int, q as int) =~= nodes_json_from(v@, 0));
            } else {
                crate::jsonfmt::lemma_subrange_compose(data@, pos as int, cur as int, q as int);
                crate::jsonfmt::lemma_subrange_compose(data@, cur as int, pstart as int, q as int);
                assert(data@.subrange(cur as int, pstart as int) =~= seq![44u8]);
                assert(data@.subrange(pos as int, q as int) =~= nodes_json_from(v@, 0));
            }
        }
        cur = q;
        first = false;
    }
}

} // verus!
