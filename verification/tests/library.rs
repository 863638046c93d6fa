use terax_workspace::appimage::{compute_appimage_env_overrides, lookup_env, path_var_override_of};
use terax_workspace::decode::{decode_command_output, looks_utf16le};
use terax_workspace::env::{resolve_path, WorkspaceEnv};
use terax_workspace::launch::{is_usable_launch_dir, pick_launch_dir, resolve_launch_dir};
use terax_workspace::registry::{WorkspaceRegistry, CANONICAL_CACHE_CAP, CANONICAL_TTL_NANOS};
use terax_workspace::spawn::{
    authorize_spawn_cwd, authorize_user_spawn_cwd, requested_cwd, spawn_cwd_target, DirProbe,
};
use terax_workspace::text::trim_str;
use terax_workspace::wsl::{
    validate_wsl_distro_name, wsl_drvfs_to_windows, wsl_path_to_host, wsl_path_to_unc,
    wsl_unc_path,
};
use terax_workspace::wsl_cli::{
    default_distro_name, parse_distro_list, wsl_capture_result, wsl_exec_args, wsl_home,
    wsl_login_shell, WslDistro, HOME_SCRIPT, LOGIN_SHELL_SCRIPT,
};

fn utf16le(text: &str, bom: bool) -> Vec<u8> {
    let mut out = Vec::new();
    if bom {
        out.extend_from_slice(&[0xff, 0xfe]);
    }
    for unit in text.encode_utf16() {
        out.extend_from_slice(&unit.to_le_bytes());
    }
    out
}

// ----- registry: roots -----

#[test]
fn authorize_then_root_and_children_are_authorized() {
    let mut reg = WorkspaceRegistry::new();
    assert!(!reg.is_authorized("/home/u/repo"));
    reg.authorize("/home/u/repo");
    assert!(reg.is_authorized("/home/u/repo"));
    assert!(reg.is_authorized("/home/u/repo/src/main.rs"));
    // Whole components only: a sibling with the same prefix is not inside.
    assert!(!reg.is_authorized("/home/u/repository"));
    assert!(!reg.is_authorized("/home/u"));
}

#[test]
fn authorize_keeps_earlier_roots_and_is_idempotent() {
    let mut reg = WorkspaceRegistry::default();
    reg.authorize("/a");
    reg.authorize("/b");
    reg.authorize("/a");
    assert!(reg.is_authorized("/a/x"));
    assert!(reg.is_authorized("/b/y"));
    assert!(!reg.is_authorized("/c"));
}

// ----- registry: canonicalization cache -----

#[test]
fn cache_serves_within_ttl_only() {
    let mut reg = WorkspaceRegistry::new();
    assert_eq!(reg.cached_canonical("link", 5), None);
    reg.remember_canonical("link", "/real/dir", 100);
    assert_eq!(reg.cached_canonical("link", 100), Some("/real/dir".to_string()));
    assert_eq!(
        reg.cached_canonical("link", 100 + CANONICAL_TTL_NANOS - 1),
        Some("/real/dir".to_string())
    );
    assert_eq!(reg.cached_canonical("link", 100 + CANONICAL_TTL_NANOS), None);
    // A clock reading before the insertion counts as no time elapsed.
    assert_eq!(reg.cached_canonical("link", 50), Some("/real/dir".to_string()));
    assert_eq!(reg.cached_canonical("other", 100), None);
}

#[test]
fn cache_keys_are_compared_as_paths() {
    let mut reg = WorkspaceRegistry::new();
    reg.remember_canonical("/a//b/", "/real/b", 0);
    assert_eq!(reg.cached_canonical("/a/b", 1), Some("/real/b".to_string()));
    assert_eq!(reg.cached_canonical("/a/./b", 1), Some("/real/b".to_string()));
    reg.remember_canonical("/a/b", "/real/b2", 2);
    assert_eq!(reg.cached_canonical("/a//b/", 3), Some("/real/b2".to_string()));
    assert_eq!(reg.cached_canonical("/a/bb", 3), None);
}

#[test]
fn cache_replaces_entry_for_same_key() {
    let mut reg = WorkspaceRegistry::new();
    reg.remember_canonical("k", "/one", 0);
    reg.remember_canonical("k", "/two", 10);
    assert_eq!(reg.cached_canonical("k", 10), Some("/two".to_string()));
}

#[test]
fn full_cache_drops_stale_entries_first() {
    let mut reg = WorkspaceRegistry::new();
    // Half the entries are old, half fresh.
    for i in 0..CANONICAL_CACHE_CAP {
        let at = if i % 2 == 0 { 0 } else { 5 * CANONICAL_TTL_NANOS };
        reg.remember_canonical(&format!("k{i}"), &format!("/c{i}"), at);
    }
    let now = 5 * CANONICAL_TTL_NANOS + 1;
    reg.remember_canonical("new", "/new", now);
    assert_eq!(reg.cached_canonical("new", now), Some("/new".to_string()));
    // A fresh entry survived the pruning.
    assert_eq!(reg.cached_canonical("k1", now), Some("/c1".to_string()));
    // A stale entry is gone even for a clock reading that would make it fresh.
    assert_eq!(reg.cached_canonical("k0", 0), None);
}

#[test]
fn full_cache_of_fresh_entries_is_cleared() {
    let mut reg = WorkspaceRegistry::new();
    for i in 0..CANONICAL_CACHE_CAP {
        reg.remember_canonical(&format!("k{i}"), &format!("/c{i}"), 7);
    }
    assert_eq!(reg.cached_canonical("k3", 7), Some("/c3".to_string()));
    reg.remember_canonical("new", "/new", 8);
    assert_eq!(reg.cached_canonical("new", 8), Some("/new".to_string()));
    assert_eq!(reg.cached_canonical("k3", 8), None);
}

// ----- spawn decisions -----

#[test]
fn spawn_errors_name_the_canonical_path() {
    let reg = WorkspaceRegistry::new();
    let probe = DirProbe::Found {
        canonical: "/etc/hosts".to_string(),
        is_dir: false,
    };
    assert_eq!(
        authorize_spawn_cwd(&reg, Some("/etc/hosts"), Some(probe)),
        Err("cwd is not a directory: /etc/hosts".to_string())
    );
    let probe = DirProbe::Found {
        canonical: "/opt".to_string(),
        is_dir: true,
    };
    assert_eq!(
        authorize_spawn_cwd(&reg, Some(" /opt "), Some(probe)),
        Err("cwd is outside the authorized workspace: /opt".to_string())
    );
    let probe = DirProbe::Inaccessible("denied".to_string());
    assert_eq!(
        authorize_spawn_cwd(&reg, Some("/x"), Some(probe)),
        Err("cwd not accessible: denied".to_string())
    );
}

#[test]
fn failed_user_spawn_leaves_registry_unchanged() {
    let mut reg = WorkspaceRegistry::new();
    let probe = DirProbe::Found {
        canonical: "/srv/file".to_string(),
        is_dir: false,
    };
    assert!(authorize_user_spawn_cwd(&mut reg, Some("/srv/file"), Some(probe)).is_err());
    assert!(!reg.is_authorized("/srv/file"));
}

#[test]
fn requested_cwd_is_trimmed() {
    assert_eq!(requested_cwd(Some("  /home/u \t")), Some("/home/u".to_string()));
    assert_eq!(requested_cwd(Some("\u{3000}")), None);
    assert_eq!(requested_cwd(None), None);
    assert_eq!(
        spawn_cwd_target(Some(" /home/u "), &WorkspaceEnv::Local, true),
        Some("/home/u".to_string())
    );
}

#[test]
fn trim_removes_unicode_whitespace() {
    assert_eq!(trim_str("\u{a0}\u{2003} x y \u{85}\r\n"), "x y");
    assert_eq!(trim_str(""), "");
}

// ----- workspace environments -----

#[test]
fn from_option_defaults_to_local() {
    assert!(matches!(WorkspaceEnv::from_option(None), WorkspaceEnv::Local));
    let wsl = WorkspaceEnv::from_option(Some(WorkspaceEnv::Wsl {
        distro: "Ubuntu".to_string(),
    }));
    assert!(wsl.is_wsl());
    assert!(!WorkspaceEnv::Local.is_wsl());
    assert!(matches!(WorkspaceEnv::default(), WorkspaceEnv::Local));
}

#[test]
fn resolve_path_maps_drvfs_in_wsl() {
    let ws = WorkspaceEnv::Wsl {
        distro: "Ubuntu".to_string(),
    };
    assert_eq!(resolve_path("/mnt/e/data", &ws, true), "E:\\data");
    assert_eq!(resolve_path("/mnt/e/data", &WorkspaceEnv::Local, true), "/mnt/e/data");
}

#[test]
fn resolve_path_keeps_every_path_off_windows() {
    let ws = WorkspaceEnv::Wsl {
        distro: "Ubuntu".to_string(),
    };
    assert_eq!(resolve_path("/mnt/c", &ws, false), "/mnt/c");
    assert_eq!(resolve_path("/home/u", &ws, false), "/home/u");
    assert_eq!(
        spawn_cwd_target(Some(" /mnt/c "), &ws, false),
        Some("/mnt/c".to_string())
    );
}

// ----- WSL paths -----

#[test]
fn validate_wsl_distro_name_reports_the_name() {
    assert_eq!(validate_wsl_distro_name("Ubuntu"), Ok(()));
    assert_eq!(
        validate_wsl_distro_name("a/b"),
        Err("unsafe WSL distro name: a/b".to_string())
    );
    assert!(validate_wsl_distro_name(&"a".repeat(256)).is_err());
    assert!(validate_wsl_distro_name(&"a".repeat(255)).is_ok());
    assert!(validate_wsl_distro_name("Ubuntü").is_err());
}

#[test]
fn unc_path_choices() {
    assert_eq!(
        wsl_unc_path("Ubuntu", "//home\\u/x", true),
        "\\\\wsl.localhost\\Ubuntu\\home\\u\\x"
    );
    assert_eq!(
        wsl_unc_path("Ubuntu", "/home/u/x", false),
        "\\\\wsl$\\Ubuntu\\home\\u\\x"
    );
    assert_eq!(
        wsl_unc_path("../x", "/home", true),
        "\\\\wsl.localhost\\__terax_invalid_distro__"
    );
    assert_eq!(wsl_unc_path("Ubuntu", "/", false), "\\\\wsl$\\Ubuntu\\");
    // Nothing named like this exists here, so the older share is used.
    assert_eq!(
        wsl_path_to_unc("Ubuntu", "/etc/hosts"),
        "\\\\wsl$\\Ubuntu\\etc\\hosts"
    );
}

#[test]
fn drvfs_edge_cases() {
    assert_eq!(wsl_drvfs_to_windows("\\mnt\\c\\x"), Some("C:\\x".to_string()));
    assert_eq!(wsl_drvfs_to_windows("/mnt/z/"), Some("Z:\\".to_string()));
    assert_eq!(wsl_drvfs_to_windows("/mnt/1/x"), None);
    assert_eq!(wsl_drvfs_to_windows("/mnt/"), None);
    assert_eq!(wsl_drvfs_to_windows("/mnt/é/x"), None);
    assert_eq!(wsl_path_to_host("Ubuntu", "/mnt/c/Users"), "C:\\Users");
}

// ----- WSL commands -----

#[test]
fn exec_args_put_distro_and_program_first() {
    assert_eq!(
        wsl_exec_args("Ubuntu", "sh", &["-c", HOME_SCRIPT]),
        Ok(vec![
            "-d".to_string(),
            "Ubuntu".to_string(),
            "--exec".to_string(),
            "sh".to_string(),
            "-c".to_string(),
            HOME_SCRIPT.to_string(),
        ])
    );
    assert_eq!(
        wsl_exec_args("..", "sh", &[]),
        Err("unsafe WSL distro name: ..".to_string())
    );
    assert!(LOGIN_SHELL_SCRIPT.ends_with("printf %s \"$shell\""));
}

#[test]
fn capture_result_decodes_and_trims_errors() {
    assert_eq!(wsl_capture_result(true, b"ok\n", b"ignored"), Ok("ok\n".to_string()));
    let err = utf16le("  There is no distribution\r\n", true);
    assert_eq!(
        wsl_capture_result(false, b"", &err),
        Err("There is no distribution".to_string())
    );
}

#[test]
fn home_and_login_shell_values() {
    assert_eq!(wsl_home("Ubuntu", true, "motd\n/home/u\n".to_string()), Ok("/home/u".to_string()));
    assert_eq!(
        wsl_home("Ubuntu", true, " \n".to_string()),
        Err("could not resolve WSL home for Ubuntu".to_string())
    );
    assert_eq!(
        wsl_home("Ubuntu", false, "/home/u\n".to_string()),
        Err("WSL is only available on Windows".to_string())
    );
    assert_eq!(wsl_login_shell("/usr/bin/fish\r\n".to_string()), "/usr/bin/fish");
    assert_eq!(wsl_login_shell(String::new()), "/bin/sh");
}

#[test]
fn decode_detects_utf16() {
    let text = "  NAME      STATE           VERSION\r\n";
    assert_eq!(decode_command_output(&utf16le(text, true)), text);
    assert_eq!(decode_command_output(&utf16le(text, false)), text);
    assert_eq!(decode_command_output("héllo".as_bytes()), "héllo");
    assert_eq!(decode_command_output(&[0x66, 0xff]), "f\u{fffd}");
    assert!(looks_utf16le(&[0x41, 0x00, 0x42, 0x00]));
    assert!(!looks_utf16le(&[0x41, 0x00, 0x42]));
    assert!(!looks_utf16le(&[0x41, 0x42, 0x43, 0x44]));
    // Exactly half of the high bytes zero is enough.
    assert!(looks_utf16le(&[0x41, 0x00, 0x42, 0x43]));
}

#[test]
fn parse_distro_list_reads_verbose_output() {
    let out = "  NAME                   STATE           VERSION\n\
               * Ubuntu-22.04           Running         2\n\
               \n\
               \u{20} Debian                 Stopped         2\n\
               \u{20} My Custom Distro       running         1\n\
               \u{20} broken\n";
    let distros = parse_distro_list(out);
    assert_eq!(distros.len(), 3);
    assert_eq!(distros[0].name, "Ubuntu-22.04");
    assert!(distros[0].default && distros[0].running);
    assert_eq!(distros[1].name, "Debian");
    assert!(!distros[1].default && !distros[1].running);
    assert_eq!(distros[2].name, "My Custom Distro");
    assert!(distros[2].running);
    assert!(parse_distro_list("").is_empty());
    assert!(parse_distro_list("header only").is_empty());
}

#[test]
fn default_distro_name_prefers_marked_default() {
    let d = |name: &str, default: bool| WslDistro {
        name: name.to_string(),
        default,
        running: false,
    };
    assert_eq!(
        default_distro_name(&vec![d("A", false), d("B", true), d("C", true)]),
        Some("B".to_string())
    );
    assert_eq!(
        default_distro_name(&vec![d("A", false), d("B", false)]),
        Some("A".to_string())
    );
    assert_eq!(default_distro_name(&vec![]), None);
}

// ----- launch directory -----

#[test]
fn usable_launch_dir_rules() {
    assert!(is_usable_launch_dir("/home/u/repo", true, false, None, false));
    assert!(!is_usable_launch_dir("/home/u/repo", false, false, None, false));
    assert!(!is_usable_launch_dir("/", true, false, None, false));
    assert!(!is_usable_launch_dir("/opt/app", true, true, None, false));
    assert!(!is_usable_launch_dir(
        "/Applications/Terax.app/Contents/MacOS",
        true,
        false,
        None,
        false
    ));
    assert!(!is_usable_launch_dir(
        "/tmp/.mount_X/usr",
        true,
        false,
        Some("/tmp/.mount_X"),
        false
    ));
    assert!(is_usable_launch_dir("/tmp/other", true, false, Some("/tmp/.mount_X"), false));
    assert!(!is_usable_launch_dir("/src/terax/src-tauri", true, false, None, true));
    assert!(is_usable_launch_dir("/src/terax/src-tauri", true, false, None, false));
}

#[test]
fn launch_dir_fallbacks() {
    let s = |x: &str| Some(x.to_string());
    assert_eq!(pick_launch_dir(s("/snap"), s("/cwd"), s("/home")), "/snap");
    assert_eq!(pick_launch_dir(None, s("/cwd"), s("/home")), "/cwd");
    assert_eq!(pick_launch_dir(None, None, s("/home")), "/home");
    assert_eq!(pick_launch_dir(None, None, None), "/");
    assert_eq!(resolve_launch_dir(s("/snap"), None), "/snap");
    assert_eq!(resolve_launch_dir(None, s("/cwd")), "/cwd");
    assert!(!resolve_launch_dir(None, None).is_empty());
}

// ----- AppImage overrides -----

#[test]
fn path_override_drops_empty_entries_too() {
    assert_eq!(
        path_var_override_of("/usr/bin::/bin", "/tmp/.mount_A"),
        Some(Some("/usr/bin:/bin".to_string()))
    );
    assert_eq!(path_var_override_of("/usr/bin:/bin", "/tmp/.mount_A"), None);
    assert_eq!(path_var_override_of("", "/tmp/.mount_A"), Some(None));
    // Whole components: a sibling directory with the same prefix stays.
    assert_eq!(path_var_override_of("/tmp/.mount_AB/bin", "/tmp/.mount_A"), None);
}

#[test]
fn overrides_come_in_list_order() {
    let env: Vec<(String, String)> = vec![
        ("ARGV0".to_string(), "terax".to_string()),
        ("FONTCONFIG_PATH".to_string(), "/tmp/.mount_A/etc/fonts".to_string()),
        ("PATH".to_string(), "/tmp/.mount_A/bin:/bin".to_string()),
        ("XDG_DATA_DIRS".to_string(), "/tmp/.mount_A/share".to_string()),
    ];
    let out = compute_appimage_env_overrides("/tmp/.mount_A", &env);
    assert_eq!(
        out,
        vec![
            ("PATH".to_string(), Some("/bin".to_string())),
            ("XDG_DATA_DIRS".to_string(), None),
            ("FONTCONFIG_PATH".to_string(), None),
            ("ARGV0".to_string(), None),
        ]
    );
    assert_eq!(lookup_env(&env, "PATH"), Some("/tmp/.mount_A/bin:/bin".to_string()));
    assert_eq!(lookup_env(&env, "HOME"), None);
}

#[test]
fn overrides_touch_each_listed_variable_at_most_once() {
    let appdir = "/tmp/.mount_Q";
    let env: Vec<(String, String)> = vec![
        ("HOME".to_string(), "/tmp/.mount_Q/home".to_string()),
        ("PATH".to_string(), "/tmp/.mount_Q/usr/bin:/usr/bin:/tmp/.mount_Q/bin:/bin".to_string()),
        ("LD_LIBRARY_PATH".to_string(), "/opt/lib:/usr/lib".to_string()),
        ("GI_TYPELIB_PATH".to_string(), "/tmp/.mount_Q/lib/girepository-1.0".to_string()),
        ("LD_PRELOAD".to_string(), "/usr/lib/libfoo.so".to_string()),
        ("GDK_PIXBUF_MODULE_FILE".to_string(), "/tmp/.mount_Q/loaders.cache".to_string()),
        ("APPIMAGE".to_string(), "/home/u/Terax.AppImage".to_string()),
        ("APPDIR".to_string(), appdir.to_string()),
        ("PATH".to_string(), "/ignored".to_string()),
    ];
    let out = compute_appimage_env_overrides(appdir, &env);
    assert_eq!(
        out,
        vec![
            ("PATH".to_string(), Some("/usr/bin:/bin".to_string())),
            ("GI_TYPELIB_PATH".to_string(), None),
            ("GDK_PIXBUF_MODULE_FILE".to_string(), None),
            ("APPDIR".to_string(), None),
            ("APPIMAGE".to_string(), None),
        ]
    );
    // A new search path holds only entries outside the mount.
    let new_path = out[0].1.clone().unwrap();
    assert!(new_path.split(':').all(|e| !e.is_empty() && !e.starts_with(appdir)));
    // Variables outside the lists, and lists without mount entries, stay.
    assert!(out.iter().all(|(k, _)| k != "HOME" && k != "LD_LIBRARY_PATH" && k != "LD_PRELOAD"));
}

#[test]
fn decode_round_trips_text() {
    for text in ["", "a", "Ubuntu-22.04 Running 2", "h\u{e9}llo \u{1d11e} \u{ffff} \u{10ffff}"] {
        assert_eq!(decode_command_output(&utf16le(text, true)), text);
        assert_eq!(decode_command_output(text.as_bytes()), text);
    }
}

#[test]
fn decode_replaces_unpaired_surrogates() {
    // BOM, then D834 DD1E (a pair), 'm', a lone low DD1E, 'i', a high D834
    // before 'c', and a final lone high D834.
    let units: [u16; 7] = [0xD834, 0xDD1E, 0x006d, 0xDD1E, 0x0069, 0xD834, 0x0063];
    let mut bytes = vec![0xff, 0xfe];
    for u in units {
        bytes.extend_from_slice(&u.to_le_bytes());
    }
    bytes.extend_from_slice(&0xD834u16.to_le_bytes());
    assert_eq!(decode_command_output(&bytes), "\u{1d11e}m\u{fffd}i\u{fffd}c\u{fffd}");
}
