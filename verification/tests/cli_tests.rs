use cargo_gha::cli::{
    assets_to_install, bool_arg_used, cargo_gha_index, choose_command, find_asset_for_binary, run_binary_step,
    str_arg_used, Command, RunStep,
};
use cargo_gha::filesystem::WalkedEntry;
use cargo_gha::manifest::{Asset, TargetArchives};

fn strings(items: &[&str]) -> Vec<String> {
    items.iter().map(|s| s.to_string()).collect()
}

#[test]
fn flags_at_top_level_or_under_gha() {
    assert!(bool_arg_used(Some(true), None));
    assert!(bool_arg_used(Some(false), Some(true)));
    assert!(bool_arg_used(None, Some(true)));
    assert!(!bool_arg_used(Some(false), Some(false)));
    assert!(!bool_arg_used(None, None));
}

#[test]
fn option_value_prefers_top_level() {
    assert_eq!(
        str_arg_used(Some("a".to_string()), Some("b".to_string())),
        Some("a".to_string())
    );
    assert_eq!(str_arg_used(None, Some("b".to_string())), Some("b".to_string()));
    assert_eq!(str_arg_used(None, None), None);
}

#[test]
fn program_position() {
    assert_eq!(cargo_gha_index(&strings(&["/home/u/.cargo/bin/cargo-gha", "gha"])), Some(0));
    assert_eq!(cargo_gha_index(&strings(&["x", "/bin/cargo-gha"])), Some(1));
    assert_eq!(cargo_gha_index(&strings(&["cargo-gha"])), None);
}

#[test]
fn command_precedence() {
    let args = strings(&["/bin/cargo-gha", "gha", "protoc"]);
    assert!(matches!(
        choose_command(Some("o/r".to_string()), true, true, &args),
        Command::Add(url) if url == "o/r"
    ));
    assert!(matches!(choose_command(None, true, true, &args), Command::Install));
    assert!(matches!(choose_command(None, false, true, &args), Command::Help));
}

#[test]
fn command_runs_the_binary_after_gha() {
    let args = strings(&["/bin/cargo-gha", "gha", "protoc", "--version", "-v"]);
    match choose_command(None, false, false, &args) {
        Command::Run { binary_name, args } => {
            assert_eq!(binary_name, "protoc");
            assert_eq!(args, strings(&["--version", "-v"]));
        }
        other => panic!("unexpected {:?}", other),
    }
    let direct = strings(&["/bin/cargo-gha", "protoc"]);
    match choose_command(None, false, false, &direct) {
        Command::Run { binary_name, args } => {
            assert_eq!(binary_name, "protoc");
            assert!(args.is_empty());
        }
        other => panic!("unexpected {:?}", other),
    }
}

#[test]
fn command_is_help_without_the_program() {
    assert!(matches!(
        choose_command(None, false, false, &strings(&["other", "x"])),
        Command::Help
    ));
}

fn asset(binaries: &[&str]) -> Asset {
    Asset {
        owner_repo: "o/r".to_string(),
        tag: "v1".to_string(),
        binaries: strings(binaries),
        target_archives: TargetArchives::new(),
    }
}

#[test]
fn asset_for_binary_is_the_first_holding_it() {
    let assets = vec![asset(&["a", "b"]), asset(&["c", "b"])];
    assert_eq!(find_asset_for_binary(&assets, "b"), Some(0));
    assert_eq!(find_asset_for_binary(&assets, "c"), Some(1));
    assert_eq!(find_asset_for_binary(&assets, "d"), None);
}

#[test]
fn run_step_installs_once_then_reports_missing() {
    let found = vec![WalkedEntry {
        path: "/d/protoc".to_string(),
        file_name: "protoc".to_string(),
        is_file: true,
        mode: 0o755,
    }];
    assert!(matches!(run_binary_step("protoc", &found, false), RunStep::Run(p) if p == "/d/protoc"));
    assert!(matches!(run_binary_step("protoc", &vec![], false), RunStep::Install));
    assert!(matches!(run_binary_step("protoc", &vec![], true), RunStep::Missing));
    assert!(matches!(run_binary_step("other", &found, true), RunStep::Missing));
}

#[test]
fn only_missing_assets_are_installed() {
    assert_eq!(assets_to_install(&vec![true, false, false, true]), vec![1, 2]);
    assert_eq!(assets_to_install(&vec![false, false]), vec![0, 1]);
    assert_eq!(assets_to_install(&vec![true, true]), Vec::<usize>::new());
    assert_eq!(assets_to_install(&vec![]), Vec::<usize>::new());
}
