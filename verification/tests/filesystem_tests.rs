use cargo_gha::filesystem::{
    dir_has_lockfile, file_has_extension, get_asset_directory, is_executable, list_binaries,
    path_join, WalkedEntry,
};
use cargo_gha::manifest::{Asset, TargetArchives};
use std::path::Path;

fn asset(owner_repo: &str, tag: &str) -> Asset {
    Asset {
        owner_repo: owner_repo.to_string(),
        tag: tag.to_string(),
        binaries: vec![],
        target_archives: TargetArchives::new(),
    }
}

#[test]
fn path_join_matches_std() {
    for (base, rel) in [
        ("/home/me/project", ".gha/.bin"),
        ("/home/me/project/", ".gha/.bin"),
        ("", ".gha"),
        ("/a", "/abs"),
        ("rel", "x/y"),
    ] {
        let expected = Path::new(base).join(rel).to_string_lossy().to_string();
        assert_eq!(path_join(base, rel), expected);
    }
}

#[test]
fn asset_directory_is_under_project_root() {
    let dir = get_asset_directory("/work/demo", &asset("protocolbuffers/protobuf", "v24.3"));
    assert_eq!(dir, "/work/demo/.gha/protocolbuffers/protobuf/v24.3/");
    let expected = Path::new("/work/demo")
        .join(".gha/protocolbuffers/protobuf/v24.3/")
        .to_string_lossy()
        .to_string();
    assert_eq!(dir, expected);
}

#[test]
fn different_tags_get_different_directories() {
    let one = get_asset_directory("/p", &asset("o/r", "v1"));
    let two = get_asset_directory("/p", &asset("o/r", "v2"));
    assert_ne!(one, two);
}

#[test]
fn extensions_follow_path_extension() {
    for name in ["protoc", "protoc.exe", ".bashrc", "a.b.c", "foo.", "..", ".", "x.tar.gz"] {
        let expected = Path::new(name).extension().is_some();
        assert_eq!(file_has_extension(name), expected, "{name}");
    }
}

#[test]
fn executable_modes() {
    assert!(is_executable(0o755));
    assert!(is_executable(0o100));
    assert!(is_executable(0o010));
    assert!(is_executable(0o001));
    assert!(!is_executable(0o644));
    assert!(!is_executable(0));
}

fn entry(path: &str, name: &str, is_file: bool, mode: u32) -> WalkedEntry {
    WalkedEntry {
        path: path.to_string(),
        file_name: name.to_string(),
        is_file,
        mode,
    }
}

#[test]
fn list_binaries_keeps_executable_files_without_extension() {
    let entries = vec![
        entry("/d", "d", false, 0o755),
        entry("/d/bin", "bin", false, 0o755),
        entry("/d/bin/protoc", "protoc", true, 0o755),
        entry("/d/readme.txt", "readme.txt", true, 0o644),
        entry("/d/tool.sh", "tool.sh", true, 0o755),
        entry("/d/LICENSE", "LICENSE", true, 0o644),
        entry("/d/other", "other", true, 0o700),
    ];
    let binaries = list_binaries(&entries);
    assert_eq!(binaries, vec![entries[2].clone(), entries[6].clone()]);
}

#[test]
fn lockfile_marks_project_root() {
    assert!(dir_has_lockfile(&vec!["src".to_string(), "Cargo.lock".to_string()]));
    assert!(!dir_has_lockfile(&vec!["Cargo.toml".to_string()]));
    assert!(!dir_has_lockfile(&vec![]));
}

#[test]
fn different_assets_get_different_directories() {
    let a = get_asset_directory("/p", &asset("o/r", "v1"));
    let b = get_asset_directory("/p", &asset("o/s", "v1"));
    let c = get_asset_directory("/p", &asset("o/r", "v2"));
    assert_ne!(a, b);
    assert_ne!(a, c);
    assert_ne!(b, c);
    // A `/` in a tag lets two assets share a directory.
    assert_eq!(
        get_asset_directory("/p", &asset("a/b", "c/d")),
        get_asset_directory("/p", &asset("a/b/c", "d"))
    );
}
