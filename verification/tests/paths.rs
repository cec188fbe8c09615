use sugar_path::SugarPath;
use sugar_path::component::{Component, Platform};
use sugar_path::ops::{Resolver, is_absolute, normalize_to_component_vec};
use sugar_path::assemble::component_vec_to_path_buf;

fn posix_env() -> Resolver {
    Resolver::from_cwd(Platform::Posix, "/home/user").unwrap()
}

fn windows_env() -> Resolver {
    Resolver::from_cwd(Platform::Windows, "C:\\cwd").unwrap()
}

#[test]
fn normalize_empty_is_dot() {
    assert_eq!("".normalize(Platform::Posix), ".");
    assert_eq!("".normalize(Platform::Windows), ".");
}

#[test]
fn normalize_collapses_separators_and_parents() {
    assert_eq!(
        "/foo/bar//baz/asdf/quux/..".normalize(Platform::Posix),
        "/foo/bar/baz/asdf"
    );
}

#[test]
fn normalize_keeps_leading_ascents() {
    assert_eq!("../../foo".normalize(Platform::Posix), "../../foo");
    assert_eq!("a/../../b".normalize(Platform::Posix), "../b");
}

#[test]
fn normalize_drops_ascent_past_root() {
    assert_eq!("/../foo".normalize(Platform::Posix), "/foo");
    assert_eq!("/..".normalize(Platform::Posix), "/");
}

#[test]
fn normalize_dot_segments() {
    assert_eq!("./a/./b/.".normalize(Platform::Posix), "a/b");
    assert_eq!(".".normalize(Platform::Posix), ".");
    assert_eq!("..".normalize(Platform::Posix), "..");
}

#[test]
fn normalize_windows_doc_cases() {
    assert_eq!(
        "C:\\temp\\\\foo\\bar\\..\\".normalize(Platform::Windows),
        "C:\\temp\\foo"
    );
    assert_eq!(
        "C:////temp\\\\/\\/\\/foo/bar".normalize(Platform::Windows),
        "C:\\temp\\foo\\bar"
    );
}

#[test]
fn normalize_windows_bare_prefix_reads_dot() {
    assert_eq!("C:".normalize(Platform::Windows), "C:.");
    assert_eq!("C:foo\\..".normalize(Platform::Windows), "C:.");
}

#[test]
fn normalize_windows_unc() {
    assert_eq!(
        "\\\\server\\share\\x\\..\\y".normalize(Platform::Windows),
        "\\\\server\\share\\y"
    );
    assert_eq!(
        "//server/share/a".normalize(Platform::Windows),
        "\\\\server\\share\\a"
    );
}

#[test]
fn resolve_relative_against_cwd() {
    let env = posix_env();
    assert_eq!("a/b".resolve(&env), "/home/user/a/b");
    assert_eq!("..".resolve(&env), "/home");
    assert_eq!("".resolve(&env), "/home/user");
}

#[test]
fn resolve_absolute_normalizes_in_place() {
    let env = posix_env();
    assert_eq!("/var//log/.".resolve(&env), "/var/log");
    assert_eq!("/abs".resolve(&env), "/abs");
}

#[test]
fn resolve_windows_forms() {
    let env = windows_env();
    assert_eq!("foo".resolve(&env), "C:\\cwd\\foo");
    assert_eq!("D:\\x\\y".resolve(&env), "D:\\x\\y");
    // a drive prefix without a root gains the root, not the drive's cwd
    assert_eq!("C:foo".resolve(&env), "C:\\foo");
    // a rooted, prefix-less path keeps the base's drive
    assert_eq!("\\rooted".resolve(&env), "C:\\rooted");
    assert_eq!("a/b".resolve(&env), "C:\\cwd\\a\\b");
}

#[test]
fn resolve_is_always_absolute() {
    let env = posix_env();
    for p in ["", ".", "..", "a/b", "/x/../y", "../../../z"] {
        assert!(is_absolute(Platform::Posix, &p.resolve(&env)));
    }
    let wenv = windows_env();
    for p in ["", "x", "C:y", "\\r", "D:\\q", "\\\\srv\\sh\\f"] {
        assert!(is_absolute(Platform::Windows, &p.resolve(&wenv)));
    }
}

#[test]
fn resolve_is_idempotent() {
    let env = posix_env();
    for p in ["", "a/../b", "/x/y/..", "../up"] {
        let once = p.resolve(&env);
        assert_eq!(once.as_str().resolve(&env), once);
    }
    let wenv = windows_env();
    for p in ["", "x", "C:y", "\\r", "D:\\q\\..", "\\\\srv\\sh\\f"] {
        let once = p.resolve(&wenv);
        assert_eq!(once.as_str().resolve(&wenv), once);
    }
}

#[test]
fn relative_to_self_is_empty() {
    let env = posix_env();
    for p in ["/var/lib", "a/b", "", "../x"] {
        assert_eq!(p.relative(p, &env), "");
    }
}

#[test]
fn relative_concrete_cases() {
    let env = posix_env();
    assert_eq!("/var".relative("/var/lib", &env), "..");
    assert_eq!("/bin".relative("/var/lib", &env), "../../bin");
    assert_eq!("/a/b/c/d".relative("/a/b/f/g", &env), "../../c/d");
}

#[test]
fn relative_round_trip() {
    let env = posix_env();
    let pairs = [
        ("/var/lib", "/var"),
        ("/var/lib", "/bin"),
        ("/a/b/f/g", "/a/b/c/d"),
        ("/home/user", "/home/user/docs"),
        ("/", "/etc/passwd"),
    ];
    for (base, target) in pairs {
        let rel = target.relative(base, &env);
        let joined = format!("{}/{}", base, rel);
        assert_eq!(joined.as_str().resolve(&env), target.resolve(&env));
    }
}

#[test]
fn relative_windows_case_insensitive() {
    let env = windows_env();
    assert_eq!("C:\\Foo\\Bar".relative("C:\\foo\\baz", &env), "..\\Bar");
    // matched segments that differ only in case leave nothing behind
    assert_eq!("C:\\Foo".relative("C:\\foo", &env), "");
}

#[test]
fn relative_windows_distinct_drives() {
    let env = windows_env();
    assert_eq!("D:\\x".relative("C:\\y", &env), "D:\\x");
}

#[test]
fn relative_descends_only() {
    let env = posix_env();
    assert_eq!("/a/b/c".relative("/a", &env), "b/c");
    assert_eq!("/a".relative("/a/b/c", &env), "../..");
}

#[test]
fn from_cwd_refuses_relative_bases() {
    assert!(Resolver::from_cwd(Platform::Posix, "not/absolute").is_none());
    assert!(Resolver::from_cwd(Platform::Posix, "").is_none());
    assert!(Resolver::from_cwd(Platform::Windows, "C:relative").is_none());
    assert!(Resolver::from_cwd(Platform::Windows, "\\no-drive").is_none());
    assert!(Resolver::from_cwd(Platform::Windows, "C:\\ok").is_some());
    assert!(Resolver::from_cwd(Platform::Windows, "\\\\srv\\share\\dir").is_some());
}

#[test]
fn is_absolute_cases() {
    assert!(is_absolute(Platform::Posix, "/"));
    assert!(is_absolute(Platform::Posix, "//x"));
    assert!(!is_absolute(Platform::Posix, "x/y"));
    assert!(!is_absolute(Platform::Posix, ""));
    assert!(is_absolute(Platform::Windows, "C:\\x"));
    assert!(is_absolute(Platform::Windows, "C:/x"));
    assert!(!is_absolute(Platform::Windows, "C:x"));
    assert!(!is_absolute(Platform::Windows, "\\x"));
    assert!(is_absolute(Platform::Windows, "\\\\server\\share"));
}

#[test]
fn component_pipeline_round_trip() {
    let comps = normalize_to_component_vec(Platform::Posix, "/foo//bar/../baz/.");
    assert_eq!(component_vec_to_path_buf(Platform::Posix, comps), "/foo/baz");

    let comps = normalize_to_component_vec(Platform::Posix, "../a/..");
    assert_eq!(component_vec_to_path_buf(Platform::Posix, comps), "..");

    // an empty canonical sequence assembles to the empty string; the
    // `normalize` fallback is what supplies the lone dot
    let comps = normalize_to_component_vec(Platform::Posix, "a/..");
    assert_eq!(comps.len(), 0);
    assert_eq!(component_vec_to_path_buf(Platform::Posix, comps), "");
}

#[test]
fn component_vec_assembles_handwritten_components() {
    let comps = vec![
        Component::RootDir,
        Component::Normal("a".to_string()),
        Component::Normal("b".to_string()),
    ];
    assert_eq!(component_vec_to_path_buf(Platform::Posix, comps), "/a/b");

    let comps = vec![
        Component::Prefix("C:".to_string()),
        Component::RootDir,
        Component::Normal("x".to_string()),
    ];
    assert_eq!(component_vec_to_path_buf(Platform::Windows, comps), "C:\\x");

    let comps = vec![Component::ParentDir, Component::ParentDir, Component::CurDir];
    assert_eq!(component_vec_to_path_buf(Platform::Posix, comps), "../../.");
}

#[test]
fn normalize_windows_drive_like_segments() {
    // a lone collapsed segment that is exactly a drive prefix reparses as
    // one on the next pass: the one place normalize is not idempotent
    assert_eq!("x\\..\\C:".normalize(Platform::Windows), "C:");
    assert_eq!("C:".normalize(Platform::Windows), "C:.");
    // likewise a leading segment of the shape `C:.` before further segments
    assert_eq!("x\\..\\C:.\\y".normalize(Platform::Windows), "C:.\\y");
    assert_eq!("C:.\\y".normalize(Platform::Windows), "C:y");
    // nearby forms are stable
    assert_eq!("x\\..\\C:u\\v".normalize(Platform::Windows), "C:u\\v");
    assert_eq!("C:u\\v".normalize(Platform::Windows), "C:u\\v");
}

#[test]
fn normalize_is_idempotent_samples() {
    for p in [
        "",
        ".",
        "..",
        "/foo/bar//baz/asdf/quux/..",
        "../../foo",
        "a/b/../../../c",
        "/",
        "//",
    ] {
        let once = p.normalize(Platform::Posix);
        assert_eq!(once.as_str().normalize(Platform::Posix), once);
    }
    for p in ["", "C:", "C:\\a\\..\\b", "\\\\s\\sh\\x", "x/../C:/y"] {
        let once = p.normalize(Platform::Windows);
        assert_eq!(once.as_str().normalize(Platform::Windows), once);
    }
}
