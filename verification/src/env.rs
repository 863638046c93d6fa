//! The environment a workspace lives in (the host, or a WSL distro) and the
//! resolution of a workspace path to a path on the host.
use crate::wsl::{host_path_spec, wsl_path_to_host};
use vstd::prelude::*;
use vstd::string::*;

verus! {

/// Where a workspace lives.
#[derive(Clone, Debug)]
pub enum WorkspaceEnv {
    /// On the host itself.
    Local,
    /// Inside a WSL distro.
    Wsl { distro: String },
}

impl Default for WorkspaceEnv {
    fn default() -> (r: Self)
        ensures
            r is Local,
    {
        WorkspaceEnv::Local
    }
}

impl WorkspaceEnv {
    /// The given environment, or `Local` when none is given.
    pub fn from_option(workspace: Option<Self>) -> (r: Self)
        ensures
            match workspace {
                Some(w) => r == w,
                None => r is Local,
            },
    {
        match workspace {
            Some(w) => w,
            None => WorkspaceEnv::Local,
        }
    }

    /// Whether this is a WSL environment.
    pub fn is_wsl(&self) -> (b: bool)
        ensures
            b == (self is Wsl),
    {
        match self {
            WorkspaceEnv::Wsl { .. } => true,
            WorkspaceEnv::Local => false,
        }
    }
}

/// The host path of `path` in `workspace`. Only a Windows host maps paths:
/// there a local path is kept as it is and a WSL path is mapped to the host
/// (see `host_path_spec`; `primary_exists` says whether the path under the
/// `\\wsl.localhost\` share exists). Any other host keeps every path as it is.
pub open spec fn resolve_path_spec(
    path: Seq<char>,
    workspace: WorkspaceEnv,
    windows_host: bool,
    primary_exists: bool,
) -> Seq<char> {
    if !windows_host {
        path
    } else {
        match workspace {
            WorkspaceEnv::Local => path,
            WorkspaceEnv::Wsl { distro } => host_path_spec(distro@, path, primary_exists),
        }
    }
}

/// The host path of a workspace path (see `resolve_path_spec`); `windows_host`
/// says whether the program runs on Windows.
pub fn resolve_path(path: &str, workspace: &WorkspaceEnv, windows_host: bool) -> (r: String)
    ensures
        r@ == resolve_path_spec(path@, *workspace, windows_host, true) || r@ == resolve_path_spec(
            path@,
            *workspace,
            windows_host,
            false,
        ),
        !windows_host ==> r@ == path@,
        workspace is Local ==> r@ == path@,
{
    if !windows_host {
        return String::from_str(path);
    }
    match workspace {
        WorkspaceEnv::Local => String::from_str(path),
        WorkspaceEnv::Wsl { distro } => wsl_path_to_host(distro.as_str(), path),
    }
}

} // verus!
