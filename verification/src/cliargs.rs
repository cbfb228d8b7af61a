//! Plain forms of the command surface and the application configuration.
//! The argument parsing and the configuration file I/O around them live
//! outside the verified core; these types carry the decided values.

use vstd::prelude::*;

use crate::strutil::bytes_of_str;
use crate::strutil::eq_ignore_case_seq;

verus! {

/// Arguments of a backup run.
#[derive(Debug, Clone)]
pub struct BackupArgs {
    pub tenant: String,
    pub service: Option<String>,
    pub user: Option<String>,
}

/// Arguments of repository initialization.
#[derive(Debug, Clone)]
pub struct InitArgs {
    pub backend: String,
    pub path: Option<String>,
    pub endpoint: Option<String>,
    pub bucket: Option<String>,
    pub region: String,
    pub access_key: Option<String>,
    pub secret_key: Option<String>,
    pub prefix: Option<String>,
}

/// Arguments of a restore.
#[derive(Debug, Clone)]
pub struct RestoreArgs {
    pub snapshot: String,
    pub service: Option<String>,
    pub user: Option<String>,
    pub target: String,
}

/// Arguments of snapshot listing and inspection.
#[derive(Debug, Clone)]
pub struct SnapshotsArgs {
    pub tenant: Option<String>,
    pub inspect: Option<String>,
}

/// Arguments of integrity verification.
#[derive(Debug, Clone)]
pub struct VerifyArgs;

/// A tenant bookkeeping action.
#[derive(Debug, Clone)]
pub enum TenantAction {
    Add { name: String, tenant_id: String, client_id: String, client_secret: String },
    List,
    Remove { name: String },
}

/// Arguments of tenant bookkeeping.
#[derive(Debug, Clone)]
pub struct TenantArgs {
    pub action: TenantAction,
}

/// The command surface.
#[derive(Debug, Clone)]
pub enum Command {
    Init(InitArgs),
    Tenant(TenantArgs),
    Backup(BackupArgs),
    Snapshots(SnapshotsArgs),
    Restore(RestoreArgs),
    Verify(VerifyArgs),
}

/// Which kind of object store a repository lives on.
#[derive(Debug, Clone)]
pub enum BackendConfig {
    Local { path: String },
    S3 {
        endpoint: String,
        region: String,
        bucket: String,
        access_key: String,
        secret_key: String,
        prefix: Option<String>,
    },
}

/// The repository half of the application configuration.
#[derive(Debug, Clone)]
pub struct RepoConfig {
    pub backend: BackendConfig,
}

/// One configured tenant.
#[derive(Debug, Clone)]
pub struct TenantConfig {
    pub name: String,
    pub tenant_id: String,
    pub client_id: String,
    pub client_secret: String,
}

/// The application configuration: a repository and its tenants.
#[derive(Debug, Clone)]
pub struct AppConfig {
    pub repository: RepoConfig,
    pub tenants: Vec<TenantConfig>,
}

impl AppConfig {
    /// The first configured tenant whose name matches, without ASCII case.
    #[verifier::loop_isolation(false)]
    pub fn find_tenant(&self, name: &str) -> (r: Option<&TenantConfig>)
        ensures
            r matches Some(t) ==> exists|i: int|
                0 <= i < self.tenants@.len() && *t == self.tenants@[i] && eq_ignore_case_seq(
                    bytes_of_str((#[trigger] self.tenants@[i]).name@),
                    bytes_of_str(name@),
                ) && (forall|j: int|
                    0 <= j < i ==> !eq_ignore_case_seq(
                        bytes_of_str((#[trigger] self.tenants@[j]).name@),
                        bytes_of_str(name@),
                    )),
            r is None ==> forall|i: int|
                0 <= i < self.tenants@.len() ==> !eq_ignore_case_seq(
                    bytes_of_str((#[trigger] self.tenants@[i]).name@),
                    bytes_of_str(name@),
                ),
    {
        let mut i: usize = 0;
        while i < self.tenants.len()
            invariant
                i <= self.tenants@.len(),
                forall|j: int|
                    0 <= j < i ==> !eq_ignore_case_seq(
                        bytes_of_str((#[trigger] self.tenants@[j]).name@),
                        bytes_of_str(name@),
                    ),
            decreases self.tenants@.len() - i,
        {
            let t = &self.tenants[i];
            if crate::strutil::str_eq_ignore_ascii_case(t.name.as_str(), name) {
                return Some(t);
            }
            i += 1;
        }
        None
    }
}

} // verus!
