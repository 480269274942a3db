use gnrt::gn::Condition;
use gnrt::platforms::Cfg;
use gnrt::platforms::CfgExpr;
use gnrt::platforms::Platform;
use gnrt::platforms::PlatformSet;
use gnrt::readme::gen_readme_chromium_text;

#[test]
fn platform_to_condition() {
    // An unconditional filter.
    assert_eq!(Condition::from_platform_set(&PlatformSet::one(None)), Condition::Always);

    // A target triple.
    assert_eq!(
        Condition::from_platform_set(&PlatformSet::one(Some(Platform::Name(String::from(
            "x86_64-pc-windows-msvc"
        )))))
        .get_if()
        .unwrap(),
        "(is_win && target_cpu == \"x64\")"
    );

    // A cfg expression.
    assert_eq!(
        Condition::from_platform_set(&PlatformSet::one(Some(Platform::Cfg(CfgExpr::Any(vec![
            CfgExpr::Value(Cfg::Name(String::from("windows"))),
            CfgExpr::Value(Cfg::KeyPair(String::from("target_os"), String::from("android"))),
        ])))))
        .get_if()
        .unwrap(),
        "((is_win) || (is_android))"
    );

    // A set with multiple filters.
    let mut platform_set = PlatformSet::empty();
    platform_set.add(Some(Platform::Name(String::from("armv7-linux-android"))));
    platform_set.add(Some(Platform::Cfg(CfgExpr::Value(Cfg::Name(String::from("windows"))))));
    assert_eq!(
        Condition::from_platform_set(&platform_set).get_if().unwrap(),
        "(is_android && target_cpu == \"arm\") || (is_win)"
    );
}

#[test]
fn negated_condition() {
    assert_eq!(
        Condition::from_platform_set(&PlatformSet::one(Some(Platform::Cfg(CfgExpr::Not(
            Box::new(CfgExpr::Value(Cfg::Name(String::from("unix"))))
        )))))
        .get_if()
        .unwrap(),
        "(!(!is_win))"
    );
}

#[test]
fn readme_text() {
    let text = gen_readme_chromium_text("foo", "A generic framework", "1.2.3", true, "MIT");
    assert_eq!(
        text,
        "Name: foo\n\
         URL: https://crates.io/crates/foo\n\
         Description: A generic framework\n\
         Version: 1.2.3\n\
         Security Critical: yes\n\
         License: MIT\n"
    );
}
