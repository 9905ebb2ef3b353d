use cargo_gha::manifest::{
    add_asset, deserailize_metadata, item_at, manifest_root_key, toml_has_path, Asset,
    ConfigError, TargetArchives,
};
use toml_edit::Document;

fn sample_asset() -> Asset {
    let mut target_archives = TargetArchives::new();
    target_archives.insert(
        "x86_64-unknown-linux-gnu".to_string(),
        "protoc-{NOVTAG}-linux-x86_64.zip".to_string(),
    );
    target_archives.insert(
        "x86_64-apple-darwin".to_string(),
        "protoc-{NOVTAG}-osx-x86_64.zip".to_string(),
    );
    Asset {
        owner_repo: "protocolbuffers/protobuf".to_string(),
        tag: "v24.3".to_string(),
        binaries: vec!["protoc".to_string()],
        target_archives,
    }
}

const PACKAGE_MANIFEST: &str = r#"[package]
name = "demo"
version = "0.1.0"

[package.metadata.gha]
targets = ["x86_64-apple-darwin", "x86_64-unknown-linux-gnu"]
"#;

#[test]
fn target_archives_insert_get_and_overwrite() {
    let mut archives = TargetArchives::new();
    assert_eq!(archives.len(), 0);
    assert_eq!(archives.get("a"), None);
    archives.insert("a".to_string(), "one".to_string());
    archives.insert("b".to_string(), "two".to_string());
    assert_eq!(archives.get("a"), Some(&"one".to_string()));
    archives.insert("a".to_string(), "three".to_string());
    assert_eq!(archives.len(), 2);
    assert_eq!(archives.get("a"), Some(&"three".to_string()));
    assert_eq!(archives.get("b"), Some(&"two".to_string()));
    assert_eq!(
        archives.entries(),
        &vec![
            ("a".to_string(), "three".to_string()),
            ("b".to_string(), "two".to_string())
        ]
    );
    let copy = archives.clone();
    assert_eq!(copy, archives);
}

#[test]
fn toml_has_path_follows_keys() {
    let doc: Document = PACKAGE_MANIFEST.parse().unwrap();
    assert!(toml_has_path(doc.as_item(), &vec!["package", "metadata", "gha"]));
    assert!(toml_has_path(doc.as_item(), &vec!["package", "metadata", "gha", "targets"]));
    assert!(!toml_has_path(doc.as_item(), &vec!["package", "metadata", "gha", "assets"]));
    assert!(!toml_has_path(doc.as_item(), &vec!["workspace", "metadata"]));
    assert!(toml_has_path(doc.as_item(), &vec![]));
    let gha = item_at(doc.as_item(), &vec!["package", "metadata", "gha"]).unwrap();
    assert!(toml_has_path(gha, &vec!["targets"]));
}

#[test]
fn root_key_prefers_workspace_metadata() {
    let doc: Document = PACKAGE_MANIFEST.parse().unwrap();
    assert_eq!(manifest_root_key(doc.as_item()), "package");
    let ws: Document = "[workspace.metadata.gha]\ntargets = []\n".parse().unwrap();
    assert_eq!(manifest_root_key(ws.as_item()), "workspace");
}

#[test]
fn deserailize_reads_gha_section_without_assets() {
    let sections = deserailize_metadata(PACKAGE_MANIFEST).unwrap();
    assert!(sections.gha.contains("targets"));
    assert!(sections.gha.contains("x86_64-apple-darwin"));
    assert_eq!(sections.assets, None);
}

#[test]
fn deserailize_reports_parse_errors() {
    match deserailize_metadata("[package\nname = ") {
        Err(ConfigError::Parse(message)) => assert!(!message.is_empty()),
        other => panic!("unexpected {:?}", other),
    }
}

#[test]
fn deserailize_reports_missing_gha_section() {
    let manifest = "[package]\nname = \"demo\"\n";
    assert!(matches!(
        deserailize_metadata(manifest),
        Err(ConfigError::MissingGhaSection)
    ));
}

#[test]
fn deserailize_reads_workspace_assets() {
    let manifest = r#"[package.metadata.gha]
targets = ["t"]

[[workspace.metadata.gha.assets]]
owner_repo = "o/r"
tag = "v1"
binaries = ["b"]
target_archives = { t = "b-{TAG}.zip" }
"#;
    let sections = deserailize_metadata(manifest).unwrap();
    let assets = sections.assets.unwrap();
    assert!(assets.contains("items"));
    assert!(assets.contains("o/r"));
}

#[test]
fn add_asset_then_deserailize_gives_the_asset_back() {
    let written = add_asset(PACKAGE_MANIFEST, &sample_asset()).unwrap();
    assert!(written.contains("[[package.metadata.gha.assets]]"));
    let sections = deserailize_metadata(&written).unwrap();
    let assets_text = sections.assets.unwrap();
    let parsed: toml::Value = toml::from_str(&assets_text).unwrap();
    let items = parsed.get("items").unwrap().as_array().unwrap();
    assert_eq!(items.len(), 1);
    let item = &items[0];
    assert_eq!(item.get("owner_repo").unwrap().as_str(), Some("protocolbuffers/protobuf"));
    assert_eq!(item.get("tag").unwrap().as_str(), Some("v24.3"));
    assert_eq!(
        item.get("binaries").unwrap().as_array().unwrap()[0].as_str(),
        Some("protoc")
    );
    let archives = item.get("target_archives").unwrap();
    assert_eq!(
        archives.get("x86_64-unknown-linux-gnu").unwrap().as_str(),
        Some("protoc-{NOVTAG}-linux-x86_64.zip")
    );
    assert_eq!(
        archives.get("x86_64-apple-darwin").unwrap().as_str(),
        Some("protoc-{NOVTAG}-osx-x86_64.zip")
    );
}

#[test]
fn add_asset_twice_appends() {
    let once = add_asset(PACKAGE_MANIFEST, &sample_asset()).unwrap();
    let twice = add_asset(&once, &sample_asset()).unwrap();
    let assets_text = deserailize_metadata(&twice).unwrap().assets.unwrap();
    let parsed: toml::Value = toml::from_str(&assets_text).unwrap();
    assert_eq!(parsed.get("items").unwrap().as_array().unwrap().len(), 2);
}

#[test]
fn add_asset_goes_under_workspace_when_it_has_metadata() {
    let manifest = "[workspace]\nmembers = []\n\n[workspace.metadata.gha]\ntargets = [\"t\"]\n";
    let written = add_asset(manifest, &sample_asset()).unwrap();
    assert!(written.contains("[[workspace.metadata.gha.assets]]"));
}

#[test]
fn add_asset_errors() {
    assert!(matches!(
        add_asset("not = [toml", &sample_asset()),
        Err(ConfigError::Parse(_))
    ));
    assert!(matches!(
        add_asset("[package]\nname = \"x\"\n", &sample_asset()),
        Err(ConfigError::MissingGhaSection)
    ));
    assert!(matches!(
        add_asset("[package.metadata]\ngha = 5\n", &sample_asset()),
        Err(ConfigError::NotATable)
    ));
    assert!(matches!(
        add_asset("[package.metadata.gha]\nassets = []\n", &sample_asset()),
        Err(ConfigError::AssetsNotArrayOfTables)
    ));
}

#[test]
fn package_assets_are_read_before_workspace_assets() {
    let manifest = r#"[package.metadata.gha]
targets = ["t"]

[[package.metadata.gha.assets]]
owner_repo = "p/p"
tag = "v1"
binaries = []
target_archives = {}

[workspace.metadata.gha]
targets = ["t"]
"#;
    let written = add_asset(manifest, &sample_asset()).unwrap();
    assert!(written.contains("[[workspace.metadata.gha.assets]]"));
    let assets_text = deserailize_metadata(&written).unwrap().assets.unwrap();
    assert!(assets_text.contains("p/p"));
    assert!(!assets_text.contains("protocolbuffers/protobuf"));
}

#[test]
fn deserailize_gha_text_is_the_rendered_section() {
    let doc: Document = PACKAGE_MANIFEST.parse().unwrap();
    let expected = doc["package"]["metadata"]["gha"].to_string();
    assert_eq!(deserailize_metadata(PACKAGE_MANIFEST).unwrap().gha, expected);
}

#[test]
fn empty_package_assets_win_over_workspace_assets() {
    let manifest = "[package]\nname='x'\n[package.metadata.gha]\ntargets=['t']\nassets=[]\n[workspace.metadata.gha]\nassets=[{owner_repo='o/r',tag='v1',binaries=[],target_archives={}}]\n";
    let assets_text = deserailize_metadata(manifest).unwrap().assets.unwrap();
    let parsed: toml::Value = toml::from_str(&assets_text).unwrap();
    assert_eq!(parsed.get("items").unwrap().as_array().unwrap().len(), 0);
    assert!(!assets_text.contains("o/r"));
}

#[test]
fn add_asset_keeps_the_rest_of_the_manifest() {
    let manifest = "# the demo crate\n[package]\nname = \"demo\"\n\n[package.metadata.gha]\ntargets = [\"t\"]\n\n[dependencies]\nserde = \"1\"\n";
    let written = add_asset(manifest, &sample_asset()).unwrap();
    let doc: Document = written.parse().unwrap();
    assert_eq!(doc["package"]["name"].as_str(), Some("demo"));
    assert_eq!(doc["dependencies"]["serde"].as_str(), Some("1"));
    let assets = doc["package"]["metadata"]["gha"]["assets"].as_array_of_tables().unwrap();
    assert_eq!(assets.len(), 1);
}

#[test]
fn add_asset_appends_after_existing_tables() {
    let once = add_asset(PACKAGE_MANIFEST, &sample_asset()).unwrap();
    let mut other = sample_asset();
    other.owner_repo = "o/r".to_string();
    let twice = add_asset(&once, &other).unwrap();
    let doc: Document = twice.parse().unwrap();
    let assets = doc["package"]["metadata"]["gha"]["assets"].as_array_of_tables().unwrap();
    assert_eq!(assets.len(), 2);
    assert_eq!(assets.get(0).unwrap()["owner_repo"].as_str(), Some("protocolbuffers/protobuf"));
    assert_eq!(assets.get(1).unwrap()["owner_repo"].as_str(), Some("o/r"));
}

#[test]
fn add_asset_writes_every_binary_in_order() {
    let mut two = sample_asset();
    two.binaries = vec!["protoc".to_string(), "protoc-gen".to_string()];
    let written = add_asset(PACKAGE_MANIFEST, &two).unwrap();
    let doc: Document = written.parse().unwrap();
    let assets = doc["package"]["metadata"]["gha"]["assets"].as_array_of_tables().unwrap();
    let binaries = assets.get(0).unwrap()["binaries"].as_array().unwrap();
    let names: Vec<&str> = binaries.iter().map(|v| v.as_str().unwrap()).collect();
    assert_eq!(names, vec!["protoc", "protoc-gen"]);
}

#[test]
fn parse_errors_carry_the_parser_message() {
    let text = "[package\nname = ";
    let expected = text.parse::<Document>().unwrap_err().to_string();
    match deserailize_metadata(text) {
        Err(ConfigError::Parse(message)) => assert_eq!(message, expected),
        other => panic!("unexpected {:?}", other),
    }
    match add_asset(text, &sample_asset()) {
        Err(ConfigError::Parse(message)) => assert_eq!(message, expected),
        other => panic!("unexpected {:?}", other),
    }
}
