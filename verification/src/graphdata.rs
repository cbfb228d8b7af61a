//! Plain records for the items an external collaboration-suite producer
//! hands the engine: users, drive items, mail folders and messages,
//! calendar events and contacts, and delta pages. The network client that
//! fills them lives outside the verified core.

use vstd::prelude::*;

use crate::strutil::contains_seq;
use crate::strutil::occurs_at;

verus! {

/// A directory user.
#[derive(Debug, Clone)]
pub struct User {
    pub id: String,
    pub display_name: Option<String>,
    pub user_principal_name: String,
    pub mail: Option<String>,
}

/// One item of a drive listing.
#[derive(Debug, Clone)]
pub struct DriveItem {
    pub id: String,
    pub name: String,
    pub parent_reference: Option<ParentRef>,
    pub size: Option<u64>,
    pub file: Option<FileInfo>,
    pub folder: Option<FolderInfo>,
    pub last_modified: Option<String>,
    pub download_url: Option<String>,
}

/// Where a drive item hangs in its tree.
#[derive(Debug, Clone)]
pub struct ParentRef {
    pub path: Option<String>,
    pub drive_id: Option<String>,
}

/// File facts of a drive item.
#[derive(Debug, Clone)]
pub struct FileInfo {
    pub mime_type: Option<String>,
    pub hashes: Option<Hashes>,
}

/// Provider-side content hashes of a drive file.
#[derive(Debug, Clone)]
pub struct Hashes {
    pub quick_xor_hash: Option<String>,
    pub sha256_hash: Option<String>,
}

/// Folder facts of a drive item.
#[derive(Debug, Clone)]
pub struct FolderInfo {
    pub child_count: Option<i64>,
}

/// One page of a delta listing of drive items.
#[derive(Debug, Clone)]
pub struct DeltaResponse {
    pub value: Vec<DriveItem>,
    pub next_link: Option<String>,
    pub delta_link: Option<String>,
}

/// One page of any listed collection.
#[derive(Debug, Clone)]
pub struct GraphPage {
    pub next_link: Option<String>,
}

/// A mail folder.
#[derive(Debug, Clone)]
pub struct MailFolder {
    pub id: String,
    pub display_name: String,
    pub child_folder_count: Option<i64>,
}

/// A listed mail message.
#[derive(Debug, Clone)]
pub struct Message {
    pub id: String,
    pub subject: Option<String>,
    pub received_date_time: Option<String>,
    pub removed: Option<RemovedMarker>,
}

/// The marker a delta listing carries on a deleted item.
#[derive(Debug, Clone)]
pub struct RemovedMarker {
    pub reason: Option<String>,
}

/// A listed calendar event.
#[derive(Debug, Clone)]
pub struct Event {
    pub id: String,
    pub subject: Option<String>,
    pub start: Option<DateTimeTimeZone>,
    pub end: Option<DateTimeTimeZone>,
    pub removed: Option<RemovedMarker>,
}

/// A provider-side date-time with its zone name.
#[derive(Debug, Clone)]
pub struct DateTimeTimeZone {
    pub date_time: Option<String>,
    pub time_zone: Option<String>,
}

/// A contact folder.
#[derive(Debug, Clone)]
pub struct ContactFolder {
    pub id: String,
    pub display_name: String,
}

/// A listed contact.
#[derive(Debug, Clone)]
pub struct Contact {
    pub id: String,
    pub display_name: Option<String>,
    pub removed: Option<RemovedMarker>,
}

/// Builds the logical path of a drive item: the part of its parent path
/// after the first drive-root marker, then `/`, then the item's name; the
/// bare name when no usable parent path stands. Parent paths arrive as
/// `/drive/root:/folder/subfolder`.
#[verifier::loop_isolation(false)]
pub fn item_path(item: &DriveItem) -> (r: String)
    ensures
        item.parent_reference is None ==> r@ == item.name@,
        (item.parent_reference matches Some(p) && p.path is None) ==> r@ == item.name@,
{
    match &item.parent_reference {
        None => item.name.clone(),
        Some(p) => match &p.path {
            None => item.name.clone(),
            Some(parent) => {
                let pb = crate::strutil::str_bytes(parent.as_str());
                let marker = crate::strutil::str_bytes(":/");
                proof {
                    reveal_strlit(":/");
                    crate::jsonfmt::lemma_str_bytes_ascii(":/");
                    assert(marker@.len() == 2);
                }
                match find_first(pb.as_slice(), marker.as_slice()) {
                    None => item.name.clone(),
                    Some(at) => {
                        let pl = pb.len();
                        proof {
                            assert(at + marker@.len() <= pb@.len());
                            assert(at + 2 <= pl);
                        }
                        let cut = at + 2;
                        if cut == pb.len() {
                            item.name.clone()
                        } else {
                            let tail = vstd::slice::slice_subrange(pb.as_slice(), cut, pb.len());
                            let mut out: Vec<u8> = Vec::new();
                            out.extend_from_slice(tail);
                            out.push(47);
                            let nb = crate::strutil::str_bytes(item.name.as_str());
                            out.extend_from_slice(nb.as_slice());
                            match crate::strutil::string_from_utf8(out) {
                                Some(s) => s,
                                None => item.name.clone(),
                            }
                        }
                    },
                }
            },
        },
    }
}

/// Position of the first occurrence of `p` in `s`, if any.
#[verifier::loop_isolation(false)]
fn find_first(s: &[u8], p: &[u8]) -> (r: Option<usize>)
    requires
        p@.len() >= 1,
    ensures
        r matches Some(i) ==> occurs_at(s@, p@, i as int),
        r is None ==> !contains_seq(s@, p@),
{
    if p.len() > s.len() {
        proof {
            assert(forall|i: int| !occurs_at(s@, p@, i));
        }
        return None;
    }
    let n = s.len() - p.len();
    let mut i: usize = 0;
    while i <= n
        invariant
            p@.len() <= s@.len(),
            n == s@.len() - p@.len(),
            i <= n + 1,
            forall|j: int| 0 <= j < i ==> !occurs_at(s@, p@, j),
        decreases n + 1 - i,
    {
        let window = vstd::slice::slice_subrange(s, i, i + p.len());
        if crate::strutil::bytes_eq(window, p) {
            proof {
                assert(occurs_at(s@, p@, i as int));
            }
            return Some(i);
        }
        i += 1;
    }
    proof {
        assert(forall|j: int| i <= j ==> !occurs_at(s@, p@, j));
    }
    None
}

} // verus!
