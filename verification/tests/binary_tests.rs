use cargo_gha::binary::{
    archive_kind, download_plan, get_download_url, gha_bin_dir, resolve_archive_name, runbin_dir,
    shell_path, ArchiveKind,
};
use cargo_gha::manifest::{Asset, TargetArchives};

fn protoc() -> Asset {
    let mut target_archives = TargetArchives::new();
    target_archives.insert(
        "x86_64-unknown-linux-gnu".to_string(),
        "protoc-{NOVTAG}-linux-x86_64.zip".to_string(),
    );
    target_archives.insert(
        "x86_64-apple-darwin".to_string(),
        "protoc-{TAG}-osx.tar.gz".to_string(),
    );
    Asset {
        owner_repo: "protocolbuffers/protobuf".to_string(),
        tag: "v24.3".to_string(),
        binaries: vec!["protoc".to_string()],
        target_archives,
    }
}

#[test]
fn resolve_fills_tag_and_tag_without_v() {
    assert_eq!(resolve_archive_name("a-{TAG}-{NOVTAG}.zip", "v1.2"), "a-v1.2-1.2.zip");
    assert_eq!(resolve_archive_name("plain.zip", "v1"), "plain.zip");
    assert_eq!(resolve_archive_name("{NOVTAG}", "vvv2v"), "2");
}

#[test]
fn download_url_of_protoc() {
    assert_eq!(
        get_download_url(&protoc(), "x86_64-unknown-linux-gnu"),
        "https://github.com/protocolbuffers/protobuf/releases/download/v24.3/protoc-24.3-linux-x86_64.zip"
    );
    assert_eq!(
        get_download_url(&protoc(), "x86_64-apple-darwin"),
        "https://github.com/protocolbuffers/protobuf/releases/download/v24.3/protoc-v24.3-osx.tar.gz"
    );
}

#[test]
fn archive_kinds_by_ending() {
    assert_eq!(archive_kind("x.tar.gz"), Some(ArchiveKind::TarGz));
    assert_eq!(archive_kind("x.tar.xz"), Some(ArchiveKind::TarXz));
    assert_eq!(archive_kind("x.zip"), Some(ArchiveKind::Zip));
    assert_eq!(archive_kind("x.tgz"), None);
    assert_eq!(archive_kind("x"), None);
}

#[test]
fn download_plan_of_protoc() {
    let plan = download_plan(&protoc(), "x86_64-unknown-linux-gnu", "/work");
    assert_eq!(
        plan.url,
        "https://github.com/protocolbuffers/protobuf/releases/download/v24.3/protoc-24.3-linux-x86_64.zip"
    );
    assert_eq!(plan.directory, "/work/.gha/protocolbuffers/protobuf/v24.3/");
    assert_eq!(plan.kind, Some(ArchiveKind::Zip));
}

#[test]
fn binary_directories() {
    assert_eq!(gha_bin_dir("/p"), "/p/.gha/.bin");
    assert_eq!(runbin_dir("/p/"), "/p/.bin/.bin");
}

#[test]
fn shell_path_puts_project_binaries_first() {
    assert_eq!(
        shell_path("/p", false, Some("/usr/bin:/bin")),
        "/p/.gha/.bin:/usr/bin:/bin"
    );
    assert_eq!(
        shell_path("/p", true, Some("/usr/bin:/bin")),
        "/p/.gha/.bin:/p/.bin/.bin:/usr/bin:/bin"
    );
    assert_eq!(shell_path("/p", false, None), "/p/.gha/.bin:");
    assert_eq!(shell_path("/p", true, Some("")), "/p/.gha/.bin:/p/.bin/.bin:");
}

#[test]
fn every_offered_archive_is_unpacked() {
    let names: Vec<String> = ["a.zip", "b.tar.gz", "c.tar.xz", "d.txt"]
        .iter()
        .map(|s| s.to_string())
        .collect();
    for name in cargo_gha::add_asset::release_archive_names(&names) {
        let url = format!("https://github.com/o/r/releases/download/v1/{name}");
        assert!(archive_kind(&url).is_some());
    }
}
