use std::path::PathBuf;

use terax_workspace::appimage::compute_appimage_env_overrides;
use terax_workspace::env::{resolve_path, WorkspaceEnv};
use terax_workspace::launch::resolve_launch_cwd;
use terax_workspace::registry::WorkspaceRegistry;
use terax_workspace::spawn::{
    authorize_spawn_cwd, authorize_user_spawn_cwd, spawn_cwd_target, user_spawn_cwd_or_home,
    DirProbe,
};
use terax_workspace::wsl::{
    is_safe_distro_name, wsl_drvfs_to_windows, wsl_path_to_host, wsl_path_to_unc,
};
use terax_workspace::wsl_cli::normalize_wsl_value;

fn found(canonical: &str) -> DirProbe {
    DirProbe::Found {
        canonical: canonical.to_string(),
        is_dir: true,
    }
}

fn missing() -> DirProbe {
    DirProbe::Inaccessible("No such file or directory (os error 2)".to_string())
}

fn env(pairs: &[(&str, &str)]) -> Vec<(String, String)> {
    pairs
        .iter()
        .map(|(k, v)| (k.to_string(), v.to_string()))
        .collect()
}

fn find<'a>(out: &'a [(String, Option<String>)], key: &str) -> Option<&'a Option<String>> {
    out.iter().find(|(k, _)| k == key).map(|(_, v)| v)
}

#[test]
fn distro_validator_accepts_real_names() {
    assert!(is_safe_distro_name("Ubuntu"));
    assert!(is_safe_distro_name("Ubuntu-22.04"));
    assert!(is_safe_distro_name("Debian"));
    assert!(is_safe_distro_name("Alpine_3.18"));
    assert!(is_safe_distro_name("openSUSE-Tumbleweed"));
}

#[test]
fn distro_validator_rejects_path_traversal() {
    assert!(!is_safe_distro_name(".."));
    assert!(!is_safe_distro_name("..\\..\\Windows"));
    assert!(!is_safe_distro_name("../foo"));
    assert!(!is_safe_distro_name("foo/bar"));
    assert!(!is_safe_distro_name("foo\\bar"));
    assert!(!is_safe_distro_name("foo..bar"));
}

#[test]
fn distro_validator_rejects_special_chars() {
    assert!(!is_safe_distro_name("foo:bar"));
    assert!(!is_safe_distro_name("foo?bar"));
    assert!(!is_safe_distro_name("foo*bar"));
    assert!(!is_safe_distro_name("foo\0bar"));
    assert!(!is_safe_distro_name(""));
    assert!(!is_safe_distro_name(".hidden"));
}

#[test]
fn wsl_path_to_unc_blocks_traversal_distro() {
    let p = PathBuf::from(wsl_path_to_unc("..\\..\\..\\Windows", "/etc/passwd"));
    let s = p.to_string_lossy();
    assert!(s.contains("__terax_invalid_distro__"), "got: {s}");
    assert!(!s.contains("\\..\\"), "got: {s}");
}

#[test]
fn wsl_path_to_unc_accepts_valid_distro() {
    let p = PathBuf::from(wsl_path_to_unc("Ubuntu", "/etc/hosts"));
    let s = p.to_string_lossy();
    assert!(!s.contains("__terax_invalid_distro__"), "got: {s}");
}

#[test]
fn resolve_path_keeps_local_paths_unchanged() {
    let path = r"C:\Users\vinicios\repo";
    assert_eq!(
        PathBuf::from(resolve_path(path, &WorkspaceEnv::Local, true)),
        PathBuf::from(path)
    );
    assert_eq!(
        PathBuf::from(resolve_path(path, &WorkspaceEnv::Local, false)),
        PathBuf::from(path)
    );
}

#[test]
fn resolve_path_maps_wsl_paths_to_host() {
    let workspace = WorkspaceEnv::Wsl {
        distro: "Ubuntu".into(),
    };
    assert_eq!(
        PathBuf::from(resolve_path("/home/vinicios/repo", &workspace, true)),
        PathBuf::from(wsl_path_to_host("Ubuntu", "/home/vinicios/repo"))
    );
}

#[test]
fn wsl_drvfs_root_maps_to_windows_drive() {
    assert_eq!(
        wsl_drvfs_to_windows("/mnt/c").map(PathBuf::from),
        Some(PathBuf::from(r"C:\"))
    );
}

#[test]
fn wsl_drvfs_child_maps_to_windows_drive() {
    assert_eq!(
        wsl_drvfs_to_windows("/mnt/d/Users/vinicios/repo").map(PathBuf::from),
        Some(PathBuf::from(r"D:\Users\vinicios\repo"))
    );
}

#[test]
fn wsl_drvfs_rejects_non_drive_mounts() {
    assert_eq!(wsl_drvfs_to_windows("/mnt/wsl"), None);
    assert_eq!(wsl_drvfs_to_windows("/home/vinicios"), None);
}

#[test]
fn normalize_wsl_value_uses_last_nonempty_line() {
    assert_eq!(
        normalize_wsl_value("banner\n  /bin/zsh \n".into(), "/bin/sh"),
        "/bin/zsh"
    );
}

#[test]
fn normalize_wsl_value_falls_back_when_empty() {
    assert_eq!(normalize_wsl_value(" \n".into(), "/bin/sh"), "/bin/sh");
}

#[test]
fn authorize_spawn_cwd_accepts_none() {
    let reg = WorkspaceRegistry::default();
    assert!(spawn_cwd_target(None, &WorkspaceEnv::Local, true).is_none());
    assert!(authorize_spawn_cwd(&reg, None, None).unwrap().is_none());
}

#[test]
fn authorize_spawn_cwd_accepts_empty_string() {
    let reg = WorkspaceRegistry::default();
    assert!(spawn_cwd_target(Some("   "), &WorkspaceEnv::Local, true).is_none());
    assert!(authorize_spawn_cwd(&reg, Some("   "), None)
        .unwrap()
        .is_none());
}

#[test]
fn authorize_spawn_cwd_accepts_authorized_path() {
    let dir = "/tmp/terax-auth-ok";
    let mut reg = WorkspaceRegistry::default();
    reg.authorize(dir);
    let target = spawn_cwd_target(Some(dir), &WorkspaceEnv::Local, true).expect("target");
    assert_eq!(target, dir);
    let resolved = authorize_spawn_cwd(&reg, Some(dir), Some(found(dir)))
        .expect("authorized")
        .expect("returned canonical");
    assert_eq!(resolved, dir);
}

#[test]
fn authorize_spawn_cwd_accepts_subdir_of_authorized_root() {
    let root = "/tmp/terax-auth-subroot";
    let sub = "/tmp/terax-auth-subroot/inside";
    let mut reg = WorkspaceRegistry::default();
    reg.authorize(root);
    let resolved = authorize_spawn_cwd(&reg, Some(sub), Some(found(sub)))
        .expect("subdir authorized")
        .expect("returned canonical");
    assert_eq!(resolved, sub);
}

#[test]
fn authorize_spawn_cwd_rejects_unauthorized_path() {
    let mut reg = WorkspaceRegistry::default();
    reg.authorize("/tmp/terax-auth-allowed");
    let foreign = "/tmp/terax-auth-foreign";
    let err = authorize_spawn_cwd(&reg, Some(foreign), Some(found(foreign)))
        .expect_err("should reject unauthorized cwd");
    assert!(err.contains("outside"), "got: {err}");
}

#[test]
fn authorize_spawn_cwd_rejects_missing_path() {
    let reg = WorkspaceRegistry::default();
    let err = authorize_spawn_cwd(&reg, Some("/tmp/terax-missing-1"), Some(missing()))
        .expect_err("should reject missing path");
    assert!(err.contains("cwd not accessible"), "got: {err}");
}

#[test]
fn authorize_user_spawn_cwd_registers_unauthorized_path() {
    let dir = "/tmp/terax-auth-userspawn";
    let mut reg = WorkspaceRegistry::default();
    assert!(!reg.is_authorized(dir));
    let resolved = authorize_user_spawn_cwd(&mut reg, Some(dir), Some(found(dir)))
        .expect("user spawn allowed anywhere")
        .expect("returned canonical");
    assert_eq!(resolved, dir);
    assert!(reg.is_authorized(dir));
}

#[test]
fn authorize_user_spawn_cwd_rejects_missing_path() {
    let mut reg = WorkspaceRegistry::default();
    let err = authorize_user_spawn_cwd(&mut reg, Some("/tmp/terax-user-missing-1"), Some(missing()))
        .expect_err("missing path must fail");
    assert!(err.contains("cwd not accessible"), "got: {err}");
}

#[test]
fn user_spawn_cwd_or_home_keeps_accessible_dir() {
    let dir = "/tmp/terax-auth-orhome-ok";
    let mut reg = WorkspaceRegistry::default();
    assert_eq!(
        user_spawn_cwd_or_home(&mut reg, Some(dir), Some(found(dir))),
        Some(dir.to_string())
    );
    assert!(reg.is_authorized(dir));
}

#[test]
fn user_spawn_cwd_or_home_falls_back_when_inaccessible() {
    let mut reg = WorkspaceRegistry::default();
    assert_eq!(
        user_spawn_cwd_or_home(&mut reg, Some("/tmp/terax-orhome-missing-1"), Some(missing())),
        None
    );
}

#[test]
fn user_spawn_cwd_or_home_passes_through_empty() {
    let mut reg = WorkspaceRegistry::default();
    assert!(spawn_cwd_target(None, &WorkspaceEnv::Local, true).is_none());
    assert_eq!(user_spawn_cwd_or_home(&mut reg, None, None), None);
    assert!(spawn_cwd_target(Some("  "), &WorkspaceEnv::Local, true).is_none());
    assert_eq!(user_spawn_cwd_or_home(&mut reg, Some("  "), None), None);
}

#[test]
fn authorize_spawn_cwd_blocks_symlink_escape() {
    let allowed = "/tmp/terax-auth-symroot";
    let outside = "/tmp/terax-auth-symtarget";
    let link = "/tmp/terax-auth-symroot/escape";
    let mut reg = WorkspaceRegistry::default();
    reg.authorize(allowed);
    // The link canonicalizes to its target, outside the authorized root.
    let err = authorize_spawn_cwd(&reg, Some(link), Some(found(outside)))
        .expect_err("symlink-escape must be rejected");
    assert!(err.contains("outside"), "got: {err}");
}

#[test]
fn resolve_launch_cwd_prefers_cli_dir_over_env() {
    let cli = "/tmp/terax-auth-cli";
    let env = "/tmp/terax-auth-env".to_string();
    let resolved = resolve_launch_cwd(Some(cli), true, Some(env), true);
    assert_eq!(resolved.as_deref(), Some(cli));
}

#[test]
fn resolve_launch_cwd_falls_back_to_env_when_cli_missing() {
    let env = "/tmp/terax-auth-envonly".to_string();
    assert_eq!(
        resolve_launch_cwd(None, false, Some(env.clone()), true),
        Some(env)
    );
}

#[test]
fn resolve_launch_cwd_ignores_nonexistent_cli_dir() {
    let env = "/tmp/terax-auth-envfb".to_string();
    let resolved = resolve_launch_cwd(Some("/no/such/terax/dir"), false, Some(env.clone()), true);
    assert_eq!(resolved, Some(env));
}

#[test]
fn strips_appdir_from_path_lists_and_unsets_when_empty() {
    let appdir = "/tmp/.mount_Terax_X";
    let vars = env(&[
        ("LD_LIBRARY_PATH", "/tmp/.mount_Terax_X/usr/lib:/usr/lib"),
        ("PATH", "/tmp/.mount_Terax_X/usr/bin:/usr/bin:/bin"),
        (
            "GST_PLUGIN_SYSTEM_PATH",
            "/tmp/.mount_Terax_X/usr/lib/gstreamer-1.0",
        ),
        ("APPDIR", "/tmp/.mount_Terax_X"),
    ]);
    let out = compute_appimage_env_overrides(appdir, &vars);

    assert_eq!(
        find(&out, "LD_LIBRARY_PATH"),
        Some(&Some("/usr/lib".to_string()))
    );
    assert_eq!(find(&out, "PATH"), Some(&Some("/usr/bin:/bin".to_string())));
    // Only an APPDIR entry, so the var is removed entirely.
    assert_eq!(find(&out, "GST_PLUGIN_SYSTEM_PATH"), Some(&None));
    assert_eq!(find(&out, "APPDIR"), Some(&None));
}

#[test]
fn leaves_untouched_vars_alone() {
    let appdir = "/tmp/.mount_Terax_X";
    let vars = env(&[
        ("LD_LIBRARY_PATH", "/usr/lib:/usr/local/lib"),
        ("LD_PRELOAD", "/home/u/my.so"),
    ]);
    let out = compute_appimage_env_overrides(appdir, &vars);

    // No APPDIR component => no override emitted for these.
    assert!(find(&out, "LD_LIBRARY_PATH").is_none());
    assert!(find(&out, "LD_PRELOAD").is_none());
}

#[test]
fn unsets_value_vars_only_when_pointing_into_appdir() {
    let appdir = "/tmp/.mount_Terax_X";
    let into = env(&[("LD_PRELOAD", "/tmp/.mount_Terax_X/usr/lib/x.so")]);
    assert_eq!(
        find(&compute_appimage_env_overrides(appdir, &into), "LD_PRELOAD"),
        Some(&None)
    );

    let outside = env(&[("FONTCONFIG_FILE", "/etc/fonts/fonts.conf")]);
    assert!(find(&compute_appimage_env_overrides(appdir, &outside), "FONTCONFIG_FILE").is_none());
}
