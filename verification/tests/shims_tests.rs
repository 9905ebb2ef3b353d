use cargo_gha::manifest::{Asset, TargetArchives};
use cargo_gha::shims::{create, shell_name, shim_path, shim_script, shims_dir, ShimFile};
use std::path::PathBuf;

#[test]
fn shell_is_last_piece_of_shell_variable() {
    assert_eq!(shell_name(Some("/bin/zsh")), "zsh");
    assert_eq!(shell_name(Some("fish")), "fish");
    assert_eq!(shell_name(Some("/usr/bin/")), "");
    assert_eq!(shell_name(None), "bash");
}

#[test]
fn shim_script_runs_cargo_gha() {
    let expected = "#!/usr/bin/env zsh\n\nif [ ! -t 0 ]; then\n    cat - | cargo gha protoc \"$@\"\nelse\n    cargo gha protoc \"$@\"\nfi";
    assert_eq!(shim_script("zsh", "protoc"), expected);
}

#[test]
fn shim_paths_drop_the_extension_like_set_extension() {
    for binary in ["protoc", "protoc.exe", ".hidden", "a.b.c", "x."] {
        let mut expected = PathBuf::from("/p/.gha/.shims").join(binary);
        expected.set_extension("");
        assert_eq!(
            shim_path("/p/.gha/.shims", binary),
            expected.to_string_lossy().to_string(),
            "{binary}"
        );
    }
    assert_eq!(shims_dir("/p"), "/p/.gha/.shims");
}

#[test]
fn create_lists_a_shim_per_binary_in_order() {
    let a = Asset {
        owner_repo: "o/a".to_string(),
        tag: "v1".to_string(),
        binaries: vec!["one".to_string(), "two.exe".to_string()],
        target_archives: TargetArchives::new(),
    };
    let b = Asset {
        owner_repo: "o/b".to_string(),
        tag: "v1".to_string(),
        binaries: vec!["three".to_string()],
        target_archives: TargetArchives::new(),
    };
    let files = create("/s", "bash", &vec![a, b]);
    assert_eq!(
        files,
        vec![
            ShimFile { path: "/s/one".to_string(), script: shim_script("bash", "one") },
            ShimFile { path: "/s/two".to_string(), script: shim_script("bash", "two.exe") },
            ShimFile { path: "/s/three".to_string(), script: shim_script("bash", "three") },
        ]
    );
}
