//! Deciding the working directory of a spawned terminal.
//!
//! The decision takes two steps around the file system: `spawn_cwd_target`
//! says which path to look up (if any), the caller canonicalizes it and asks
//! whether it is a directory, and the functions below decide from what the
//! file system said.
use crate::env::{resolve_path, resolve_path_spec, WorkspaceEnv};
use crate::registry::{authorizes, lemma_authorize_grants, WorkspaceRegistry};
use crate::text::{trim_spec, trim_str};
use vstd::prelude::*;
use vstd::string::*;

verus! {

/// What the file system said about the path of a requested directory.
pub enum DirProbe {
    /// Canonicalizing the path failed; the text says why.
    Inaccessible(String),
    /// The canonical form of the path, and whether it names a directory.
    Found { canonical: String, is_dir: bool },
}

/// The view of an optional string.
pub open spec fn opt_view(o: Option<&str>) -> Option<Seq<char>> {
    match o {
        Some(s) => Some(s@),
        None => None,
    }
}

/// The view of an optional owned string.
pub open spec fn opt_string_view(o: Option<String>) -> Option<Seq<char>> {
    match o {
        Some(s) => Some(s@),
        None => None,
    }
}

/// The directory asked for: the given text, trimmed, unless it is absent or
/// blank (which means "use the default").
pub open spec fn requested_cwd_spec(cwd: Option<Seq<char>>) -> Option<Seq<char>> {
    match cwd {
        Some(c) => if trim_spec(c).len() > 0 {
            Some(trim_spec(c))
        } else {
            None
        },
        None => None,
    }
}

/// The error for a path that could not be canonicalized.
pub open spec fn not_accessible_msg(e: Seq<char>) -> Seq<char> {
    "cwd not accessible: "@ + e
}

/// The error for a path that is not a directory.
pub open spec fn not_dir_msg(canonical: Seq<char>) -> Seq<char> {
    "cwd is not a directory: "@ + canonical
}

/// The error for a directory outside every authorized root.
pub open spec fn outside_msg(canonical: Seq<char>) -> Seq<char> {
    "cwd is outside the authorized workspace: "@ + canonical
}

/// The outcome of a probe that must name an accessible directory: its
/// canonical path, or the error that says what is wrong.
pub open spec fn probe_dir_spec(probe: DirProbe) -> Result<Seq<char>, Seq<char>> {
    match probe {
        DirProbe::Inaccessible(e) => Err(not_accessible_msg(e@)),
        DirProbe::Found { canonical, is_dir } => if is_dir {
            Ok(canonical@)
        } else {
            Err(not_dir_msg(canonical@))
        },
    }
}

/// What an agent-requested spawn directory comes to, given the authorized
/// roots: `Ok(None)` when none was requested, the canonical directory when it
/// exists and lies under an authorized root, else the error.
pub open spec fn spawn_cwd_spec(
    roots: Set<Seq<char>>,
    requested: Option<Seq<char>>,
    probe: Option<DirProbe>,
) -> Result<Option<Seq<char>>, Seq<char>> {
    match requested {
        None => Ok(None),
        Some(_) => match probe_dir_spec(probe.unwrap()) {
            Err(e) => Err(e),
            Ok(c) => if authorizes(roots, c) {
                Ok(Some(c))
            } else {
                Err(outside_msg(c))
            },
        },
    }
}

/// What a user-requested spawn directory comes to: `Ok(None)` when none was
/// requested, else the canonical directory when it exists (it then becomes
/// an authorized root), else the error.
pub open spec fn user_spawn_cwd_spec(requested: Option<Seq<char>>, probe: Option<DirProbe>) -> Result<
    Option<Seq<char>>,
    Seq<char>,
> {
    match requested {
        None => Ok(None),
        Some(_) => match probe_dir_spec(probe.unwrap()) {
            Err(e) => Err(e),
            Ok(c) => Ok(Some(c)),
        },
    }
}

/// The view of a spawn decision.
pub open spec fn outcome_view(r: Result<Option<String>, String>) -> Result<Option<Seq<char>>, Seq<char>> {
    match r {
        Ok(o) => Ok(opt_string_view(o)),
        Err(e) => Err(e@),
    }
}

/// The directory asked for (see `requested_cwd_spec`).
pub fn requested_cwd(cwd: Option<&str>) -> (r: Option<String>)
    ensures
        opt_string_view(r) == requested_cwd_spec(opt_view(cwd)),
{
    match cwd {
        None => None,
        Some(c) => {
            let t = trim_str(c);
            if t.unicode_len() > 0 {
                Some(t)
            } else {
                None
            }
        },
    }
}

/// The host path to look up for a spawn request in `workspace`, or `None`
/// when no directory was requested; `windows_host` says whether the program
/// runs on Windows (see `resolve_path_spec`).
pub fn spawn_cwd_target(cwd: Option<&str>, workspace: &WorkspaceEnv, windows_host: bool) -> (r:
    Option<String>)
    ensures
        match requested_cwd_spec(opt_view(cwd)) {
            None => r is None,
            Some(c) => r matches Some(p) && (p@ == resolve_path_spec(
                c,
                *workspace,
                windows_host,
                true,
            ) || p@ == resolve_path_spec(c, *workspace, windows_host, false)),
        },
{
    match requested_cwd(cwd) {
        None => None,
        Some(c) => Some(resolve_path(c.as_str(), workspace, windows_host)),
    }
}

/// The canonical directory of a probe, or what is wrong with it.
fn probe_dir(probe: DirProbe) -> (r: Result<String, String>)
    ensures
        match r {
            Ok(c) => probe_dir_spec(probe) == Ok::<Seq<char>, Seq<char>>(c@),
            Err(e) => probe_dir_spec(probe) == Err::<Seq<char>, Seq<char>>(e@),
        },
{
    match probe {
        DirProbe::Inaccessible(e) => {
            let mut m = String::from_str("cwd not accessible: ");
            m.append(e.as_str());
            Err(m)
        },
        DirProbe::Found { canonical, is_dir } => {
            if is_dir {
                Ok(canonical)
            } else {
                let mut m = String::from_str("cwd is not a directory: ");
                m.append(canonical.as_str());
                Err(m)
            }
        },
    }
}

/// Decides an agent-requested spawn directory (see `spawn_cwd_spec`):
/// `probe` is what the file system said about `spawn_cwd_target(cwd, ..)`.
/// Symlinks and `..` are resolved by the canonicalization, so a path that
/// leads out of the authorized roots is refused.
pub fn authorize_spawn_cwd(
    registry: &WorkspaceRegistry,
    cwd: Option<&str>,
    probe: Option<DirProbe>,
) -> (r: Result<Option<String>, String>)
    requires
        requested_cwd_spec(opt_view(cwd)) is Some ==> probe is Some,
    ensures
        outcome_view(r) == spawn_cwd_spec(
            registry.roots(),
            requested_cwd_spec(opt_view(cwd)),
            probe,
        ),
        (r matches Ok(None)) <==> requested_cwd_spec(opt_view(cwd)) is None,
        r matches Ok(Some(c)) ==> authorizes(registry.roots(), c@),
{
    let requested = requested_cwd(cwd);
    if requested.is_none() {
        return Ok(None);
    }
    let p = probe.unwrap();
    match probe_dir(p) {
        Err(e) => Err(e),
        Ok(c) => {
            if registry.is_authorized(c.as_str()) {
                Ok(Some(c))
            } else {
                let mut m = String::from_str("cwd is outside the authorized workspace: ");
                m.append(c.as_str());
                Err(m)
            }
        },
    }
}

/// Decides a user-requested spawn directory (see `user_spawn_cwd_spec`): the
/// user may open a terminal anywhere, so an existing directory is accepted and
/// registered as an authorized root.
pub fn authorize_user_spawn_cwd(
    registry: &mut WorkspaceRegistry,
    cwd: Option<&str>,
    probe: Option<DirProbe>,
) -> (r: Result<Option<String>, String>)
    requires
        old(registry).wf(),
        requested_cwd_spec(opt_view(cwd)) is Some ==> probe is Some,
    ensures
        final(registry).wf(),
        outcome_view(r) == user_spawn_cwd_spec(requested_cwd_spec(opt_view(cwd)), probe),
        final(registry).roots() == match r {
            Ok(Some(c)) => old(registry).roots().insert(c@),
            _ => old(registry).roots(),
        },
        final(registry).cache() == old(registry).cache(),
        r matches Ok(Some(c)) ==> authorizes(final(registry).roots(), c@),
{
    let requested = requested_cwd(cwd);
    if requested.is_none() {
        return Ok(None);
    }
    let p = probe.unwrap();
    match probe_dir(p) {
        Err(e) => Err(e),
        Ok(c) => {
            registry.authorize(c.as_str());
            proof {
                lemma_authorize_grants(old(registry).roots(), c@, c@);
            }
            Ok(Some(c))
        },
    }
}

/// The directory a user-requested terminal opens in: the requested text,
/// trimmed, when it names an existing directory (which is then authorized);
/// `None`, meaning the home directory, when none was requested or it is not
/// usable. A saved directory can be stale or belong to another environment,
/// and the terminal must open anyway.
pub fn user_spawn_cwd_or_home(
    registry: &mut WorkspaceRegistry,
    cwd: Option<&str>,
    probe: Option<DirProbe>,
) -> (r: Option<String>)
    requires
        old(registry).wf(),
        requested_cwd_spec(opt_view(cwd)) is Some ==> probe is Some,
    ensures
        final(registry).wf(),
        opt_string_view(r) == match requested_cwd_spec(opt_view(cwd)) {
            None => None,
            Some(c) => match user_spawn_cwd_spec(Some(c), probe) {
                Ok(_) => Some(c),
                Err(_) => None,
            },
        },
        final(registry).roots() == match user_spawn_cwd_spec(
            requested_cwd_spec(opt_view(cwd)),
            probe,
        ) {
            Ok(Some(c)) => old(registry).roots().insert(c),
            _ => old(registry).roots(),
        },
        final(registry).cache() == old(registry).cache(),
        user_spawn_cwd_spec(requested_cwd_spec(opt_view(cwd)), probe) matches Ok(Some(c))
            ==> authorizes(final(registry).roots(), c),
{
    let requested = requested_cwd(cwd);
    match requested {
        None => None,
        Some(c) => {
            let result = authorize_user_spawn_cwd(registry, Some(c.as_str()), probe);
            proof {
                assert(trim_spec(trim_spec(opt_view(cwd).unwrap())) == trim_spec(
                    opt_view(cwd).unwrap(),
                )) by {
                    crate::text::lemma_trim_idempotent(opt_view(cwd).unwrap());
                }
            }
            match result {
                Ok(_) => Some(c),
                Err(_) => None,
            }
        },
    }
}

} // verus!
