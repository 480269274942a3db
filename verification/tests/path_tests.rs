use gnrt::file_paths::make_canonical_file_path;

#[test]
fn canonical_paths() {
    // A generated crate root four levels deep in the build directory.
    assert_eq!(
        make_canonical_file_path("gen/foo/../../../../real/path.rs"),
        "real/path.rs"
    );
    // Inner parent references cancel their left neighbour.
    assert_eq!(make_canonical_file_path("a/b/../c"), "a/c");
    // Unmatched parent references at the front fall away.
    assert_eq!(make_canonical_file_path("../x/y.rs"), "x/y.rs");
    // Empty and current-directory components are dropped.
    assert_eq!(make_canonical_file_path("a//b"), "a/b");
    assert_eq!(make_canonical_file_path("./a/b.rs"), "a/b.rs");
    // A plain path is unchanged.
    assert_eq!(make_canonical_file_path("src/lib.rs"), "src/lib.rs");
}
