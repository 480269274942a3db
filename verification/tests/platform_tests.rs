use gnrt::platforms::Cfg;
use gnrt::platforms::CfgExpr;
use gnrt::platforms::Platform;
use gnrt::platforms::PlatformSet;
use gnrt::platforms::filter_unsupported_platform_terms;
use gnrt::platforms::matches_supported_target;
use gnrt::platforms::supported_named_platforms_for_testing;
use gnrt::platforms::supported_os_cfgs_for_testing;

fn name(s: &str) -> Cfg {
    Cfg::Name(String::from(s))
}

fn target_os(s: &str) -> Cfg {
    Cfg::KeyPair(String::from("target_os"), String::from(s))
}

fn value(c: Cfg) -> CfgExpr {
    CfgExpr::Value(c)
}

#[test]
fn platform_is_supported() {
    for named_platform in supported_named_platforms_for_testing() {
        assert!(matches_supported_target(&Platform::Name(named_platform)));
    }

    assert!(!matches_supported_target(&Platform::Name(String::from("x86_64-unknown-redox"))));
    assert!(!matches_supported_target(&Platform::Name(String::from("wasm32-wasi"))));

    for os in supported_os_cfgs_for_testing() {
        assert!(matches_supported_target(&Platform::Cfg(CfgExpr::Value(os))));
    }

    assert!(!matches_supported_target(&Platform::Cfg(value(target_os("redox")))));
    assert!(!matches_supported_target(&Platform::Cfg(value(target_os("haiku")))));
    assert!(!matches_supported_target(&Platform::Cfg(value(Cfg::KeyPair(
        String::from("target_arch"),
        String::from("sparc"),
    )))));

    assert!(matches_supported_target(&Platform::Cfg(CfgExpr::Any(vec![
        value(name("unix")),
        value(target_os("wasi")),
    ]))));

    assert!(!matches_supported_target(&Platform::Cfg(CfgExpr::All(vec![
        value(name("unix")),
        value(target_os("wasi")),
    ]))));
}

#[test]
fn filter_unsupported() {
    // any(unix, target_os = "wasi") simplifies to unix.
    assert_eq!(
        filter_unsupported_platform_terms(Platform::Cfg(CfgExpr::Any(vec![
            value(name("unix")),
            value(target_os("wasi")),
        ]))),
        Some(Platform::Cfg(value(name("unix"))))
    );

    // all(not(unix), not(target_os = "wasi")) simplifies to not(unix).
    assert_eq!(
        filter_unsupported_platform_terms(Platform::Cfg(CfgExpr::All(vec![
            CfgExpr::Not(Box::new(value(name("unix")))),
            CfgExpr::Not(Box::new(value(target_os("wasi")))),
        ]))),
        Some(Platform::Cfg(CfgExpr::Not(Box::new(value(name("unix"))))))
    );

    // not(target_os = "wasi") is true everywhere supported: no filter left.
    assert_eq!(
        filter_unsupported_platform_terms(Platform::Cfg(CfgExpr::Not(Box::new(value(
            target_os("wasi")
        ))))),
        None
    );

    // A named triple passes through unchanged.
    assert_eq!(
        filter_unsupported_platform_terms(Platform::Name(String::from("aarch64-apple-darwin"))),
        Some(Platform::Name(String::from("aarch64-apple-darwin")))
    );
}

#[test]
fn platform_set_one_none_is_all() {
    assert!(matches!(PlatformSet::one(None), PlatformSet::All));
}

#[test]
fn platform_set_all_absorbs() {
    let mut ps = PlatformSet::one(None);
    ps.add(Some(Platform::Name(String::from("x86_64-pc-windows-msvc"))));
    assert!(matches!(ps, PlatformSet::All));
    ps.add(None);
    assert!(matches!(ps, PlatformSet::All));
}

#[test]
fn platform_set_deduplicates() {
    let mut ps = PlatformSet::empty();
    ps.add(Some(Platform::Name(String::from("x86_64-pc-windows-msvc"))));
    ps.add(Some(Platform::Name(String::from("x86_64-pc-windows-msvc"))));
    ps.add(Some(Platform::Cfg(value(name("windows")))));
    match ps {
        PlatformSet::Platforms(v) => {
            assert_eq!(v.len(), 2);
            assert_eq!(v[0], Platform::Name(String::from("x86_64-pc-windows-msvc")));
            assert_eq!(v[1], Platform::Cfg(value(name("windows"))));
        },
        PlatformSet::All => panic!("set collapsed unexpectedly"),
    }
}

#[test]
fn platform_set_none_collapses() {
    let mut ps = PlatformSet::empty();
    ps.add(Some(Platform::Name(String::from("x86_64-pc-windows-msvc"))));
    ps.add(None);
    assert!(matches!(ps, PlatformSet::All));
}
