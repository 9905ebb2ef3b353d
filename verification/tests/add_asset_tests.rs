use cargo_gha::add_asset::{
    archive_template, asset_for_release, binary_names, has_owner_and_repo, is_archive_name,
    owner_repo_from_url, release_archive_names, split_owner_repo,
};
use cargo_gha::binary::{get_download_url, resolve_archive_name};
use cargo_gha::filesystem::WalkedEntry;

#[test]
fn url_and_owner_repo_name_the_same_repository() {
    assert_eq!(
        owner_repo_from_url("https://github.com/protocolbuffers/protobuf"),
        "protocolbuffers/protobuf"
    );
    assert_eq!(
        owner_repo_from_url("protocolbuffers/protobuf"),
        "protocolbuffers/protobuf"
    );
    assert_eq!(
        owner_repo_from_url("https://github.com/protocolbuffers/protobuf/"),
        "protocolbuffers/protobuf"
    );
    assert_eq!(owner_repo_from_url("a/b//"), "a/b/");
    assert_eq!(owner_repo_from_url(""), "");
}

#[test]
fn owner_and_repo_parts() {
    assert!(has_owner_and_repo("o/r"));
    assert!(!has_owner_and_repo("or"));
    assert_eq!(
        split_owner_repo("protocolbuffers/protobuf"),
        ("protocolbuffers".to_string(), "protobuf".to_string())
    );
    assert_eq!(split_owner_repo("a/b/c"), ("a".to_string(), "b".to_string()));
    assert_eq!(split_owner_repo("a/"), ("a".to_string(), "".to_string()));
}

#[test]
fn release_archives_are_filtered_in_order() {
    let names: Vec<String> = [
        "protoc-24.3-linux.zip",
        "checksums.txt",
        "tool.tar.gz",
        "tool.tar.xz",
        "tool.tar.bz2",
        "source.zip",
    ]
    .iter()
    .map(|s| s.to_string())
    .collect();
    assert_eq!(
        release_archive_names(&names),
        vec![
            "protoc-24.3-linux.zip".to_string(),
            "tool.tar.gz".to_string(),
            "tool.tar.xz".to_string(),
            "source.zip".to_string()
        ]
    );
    assert!(is_archive_name("a.zip"));
    assert!(!is_archive_name("a.zipx"));
}

#[test]
fn template_replaces_tag_then_tag_without_v() {
    assert_eq!(
        archive_template("protoc-24.3-linux-x86_64.zip", "v24.3"),
        "protoc-{NOVTAG}-linux-x86_64.zip"
    );
    assert_eq!(archive_template("tool-v1.0.tar.gz", "v1.0"), "tool-{TAG}.tar.gz");
    assert_eq!(
        archive_template("x-v1.2-1.2.zip", "v1.2"),
        "x-{TAG}-{NOVTAG}.zip"
    );
}

#[test]
fn template_resolves_back_to_the_archive() {
    for (name, tag) in [
        ("protoc-24.3-linux-x86_64.zip", "v24.3"),
        ("tool-v1.0.tar.gz", "v1.0"),
        ("x-v1.2-1.2.zip", "v1.2"),
        ("no-version.zip", "v3"),
    ] {
        assert_eq!(resolve_archive_name(&archive_template(name, tag), tag), name);
    }
}

#[test]
fn template_round_trip_fails_where_the_tag_occurs_in_its_marker() {
    // The tag without its `v` is "T", which occurs in "{TAG}".
    let template = archive_template("T-vT.zip", "vT");
    assert_ne!(resolve_archive_name(&template, "vT"), "T-vT.zip");
}

#[test]
fn asset_for_release_records_templates_per_target() {
    let targets = vec!["linux".to_string(), "mac".to_string()];
    let archives = vec!["protoc-24.3-linux.zip".to_string(), "protoc-24.3-osx.zip".to_string()];
    let asset = asset_for_release(
        "protocolbuffers/protobuf".to_string(),
        "v24.3".to_string(),
        &targets,
        &archives,
        &vec![0, 1],
    );
    assert_eq!(asset.owner_repo, "protocolbuffers/protobuf");
    assert_eq!(asset.tag, "v24.3");
    assert!(asset.binaries.is_empty());
    assert_eq!(
        asset.target_archives.get("linux"),
        Some(&"protoc-{NOVTAG}-linux.zip".to_string())
    );
    assert_eq!(
        asset.target_archives.get("mac"),
        Some(&"protoc-{NOVTAG}-osx.zip".to_string())
    );
    assert_eq!(
        get_download_url(&asset, "mac"),
        "https://github.com/protocolbuffers/protobuf/releases/download/v24.3/protoc-24.3-osx.zip"
    );
}

#[test]
fn repeated_target_keeps_the_later_answer() {
    let targets = vec!["linux".to_string(), "linux".to_string()];
    let archives = vec!["a.zip".to_string(), "b.zip".to_string()];
    let asset = asset_for_release("o/r".to_string(), "v1".to_string(), &targets, &archives, &vec![0, 1]);
    assert_eq!(asset.target_archives.len(), 1);
    assert_eq!(asset.target_archives.get("linux"), Some(&"b.zip".to_string()));
}

#[test]
fn binary_names_are_file_names() {
    let entries = vec![WalkedEntry {
        path: "/d/bin/protoc".to_string(),
        file_name: "protoc".to_string(),
        is_file: true,
        mode: 0o755,
    }];
    assert_eq!(binary_names(&entries), vec!["protoc".to_string()]);
}
