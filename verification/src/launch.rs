//! Choosing the directory the application was launched from.
//!
//! What the file system and the process environment say (whether a path is a
//! directory, the current directory, the executable's directory, `APPDIR`)
//! is gathered by the caller; these functions decide from it.
use crate::paths::{file_name_of, path_eq, path_file_name, path_prefix, path_same, path_starts_with};
use crate::spawn::{opt_string_view, opt_view};
use crate::text::{chars_of, contains_chars, contains_spec};
use vstd::prelude::*;
use vstd::string::*;

verus! {

/// The launch directory given on the command line when it is a directory,
/// else the process's current directory when it is usable, else none.
pub open spec fn launch_cwd_spec(
    cli_dir: Option<Seq<char>>,
    cli_dir_is_dir: bool,
    env_cwd: Option<Seq<char>>,
    env_cwd_usable: bool,
) -> Option<Seq<char>> {
    if cli_dir is Some && cli_dir_is_dir {
        cli_dir
    } else if env_cwd is Some && env_cwd_usable {
        env_cwd
    } else {
        None
    }
}

/// Picks the launch directory (see `launch_cwd_spec`): a directory named on the
/// command line wins over the current directory.
pub fn resolve_launch_cwd(
    cli_dir: Option<&str>,
    cli_dir_is_dir: bool,
    env_cwd: Option<String>,
    env_cwd_usable: bool,
) -> (r: Option<String>)
    ensures
        opt_string_view(r) == launch_cwd_spec(
            opt_view(cli_dir),
            cli_dir_is_dir,
            opt_string_view(env_cwd),
            env_cwd_usable,
        ),
{
    if let Some(dir) = cli_dir {
        if cli_dir_is_dir {
            return Some(String::from_str(dir));
        }
    }
    if env_cwd_usable {
        env_cwd
    } else {
        None
    }
}

/// Whether a directory can serve as the launch directory: it must be a
/// directory other than the root, not the directory of the executable, not
/// inside a macOS application bundle, not inside the AppImage mount
/// `appdir` (a temporary mount, not a real working directory), and, in a
/// debug build, not the `src-tauri` directory of the source tree.
pub open spec fn usable_launch_dir_spec(
    path: Seq<char>,
    is_dir: bool,
    is_executable_dir: bool,
    appdir: Option<Seq<char>>,
    debug_build: bool,
) -> bool {
    &&& is_dir
    &&& !path_same(path, "/"@)
    &&& !is_executable_dir
    &&& !contains_spec(path, ".app/Contents/"@)
    &&& !(appdir matches Some(a) && path_prefix(path, a))
    &&& !(debug_build && path_file_name(path) == Some("src-tauri"@))
}

/// Whether `path` can serve as the launch directory (see
/// `usable_launch_dir_spec`); the caller says whether it is a directory,
/// whether it is the executable's directory, what `APPDIR` holds (on Linux)
/// and whether this is a debug build.
pub fn is_usable_launch_dir(
    path: &str,
    is_dir: bool,
    is_executable_dir: bool,
    appdir: Option<&str>,
    debug_build: bool,
) -> (b: bool)
    ensures
        b == usable_launch_dir_spec(path@, is_dir, is_executable_dir, opt_view(appdir), debug_build),
{
    if !is_dir || path_eq(path, "/") {
        return false;
    }
    if is_executable_dir {
        return false;
    }
    let v = chars_of(path);
    let bundle = chars_of(".app/Contents/");
    if contains_chars(&v, &bundle) {
        return false;
    }
    if let Some(a) = appdir {
        if path_starts_with(path, a) {
            return false;
        }
    }
    if debug_build {
        if let Some(n) = file_name_of(path) {
            if n == String::from_str("src-tauri") {
                return false;
            }
        }
    }
    true
}

/// The launch directory: the snapshot taken at startup, else the current
/// directory when usable, else the home directory, else `/`.
pub open spec fn launch_dir_spec(
    snapshot: Option<Seq<char>>,
    usable_cwd: Option<Seq<char>>,
    home: Option<Seq<char>>,
) -> Seq<char> {
    match snapshot {
        Some(s) => s,
        None => match usable_cwd {
            Some(c) => c,
            None => match home {
                Some(h) => h,
                None => "/"@,
            },
        },
    }
}

/// Picks the launch directory (see `launch_dir_spec`) given the home
/// directory.
pub fn pick_launch_dir(snapshot: Option<String>, usable_cwd: Option<String>, home: Option<String>) -> (r:
    String)
    ensures
        r@ == launch_dir_spec(
            opt_string_view(snapshot),
            opt_string_view(usable_cwd),
            opt_string_view(home),
        ),
{
    match snapshot {
        Some(s) => s,
        None => match usable_cwd {
            Some(c) => c,
            None => match home {
                Some(h) => h,
                None => String::from_str("/"),
            },
        },
    }
}

/// Calls `dirs::home_dir`, turning the path into a string (lossily, with
/// `to_string_lossy`, where the path is not valid Unicode: the library keeps
/// paths as strings). Nothing is claimed of the result: it depends on the
/// environment (`$HOME`, or the user database) of the process; nor that a
/// home directory it gives is non-empty, which the Unix source checks but the
/// Windows and Redox sources do not.
#[verifier::external_body]
fn home_dir() -> (r: Option<String>) {
    dirs::home_dir().map(|p| p.to_string_lossy().into_owned())
}

/// The launch directory (see `launch_dir_spec`), asking for the home directory
/// only when neither the snapshot nor the current directory is given.
pub fn resolve_launch_dir(snapshot: Option<String>, usable_cwd: Option<String>) -> (r: String)
    ensures
        exists|home: Option<Seq<char>>|
            r@ == launch_dir_spec(opt_string_view(snapshot), opt_string_view(usable_cwd), home),
        snapshot matches Some(s) ==> r@ == s@,
        snapshot is None && usable_cwd is Some ==> r@ == usable_cwd.unwrap()@,
{
    if snapshot.is_some() || usable_cwd.is_some() {
        pick_launch_dir(snapshot, usable_cwd, None)
    } else {
        let home = home_dir();
        pick_launch_dir(snapshot, usable_cwd, home)
    }
}

} // verus!
