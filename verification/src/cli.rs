//! What a `cargo gha` invocation asks for, and which installed file a binary name runs.
use crate::filesystem::WalkedEntry;
use crate::manifest::Asset;
use crate::text::ends_with;
use crate::text::ends_with_seq;
use crate::text::equal;
use crate::text::views;
use vstd::prelude::*;

verus! {

/// Whether a flag is set, at the top level or under the `gha` subcommand that `cargo gha`
/// passes.
pub fn bool_arg_used(top_level: Option<bool>, under_gha: Option<bool>) -> (r: bool)
    ensures
        r == (top_level == Some(true) || under_gha == Some(true)),
{
    if let Some(used) = top_level {
        if used {
            return true;
        }
    }
    if let Some(used) = under_gha {
        if used {
            return true;
        }
    }
    false
}

/// The value of an option, taken at the top level first, else under the `gha`
/// subcommand.
pub fn str_arg_used(top_level: Option<String>, under_gha: Option<String>) -> (r: Option<String>)
    ensures
        r == (if top_level is Some {
            top_level
        } else {
            under_gha
        }),
{
    if let Some(res) = top_level {
        return Some(res);
    }
    if let Some(res) = under_gha {
        return Some(res);
    }
    None
}

/// The position of the first argument that ends in `/cargo-gha`, the program itself.
pub open spec fn cargo_gha_position(args: Seq<Seq<char>>) -> Option<int>
    decreases args.len(),
{
    if args.len() == 0 {
        None
    } else if ends_with_seq(args[0], "/cargo-gha"@) {
        Some(0)
    } else {
        match cargo_gha_position(args.drop_first()) {
            Some(i) => Some(i + 1),
            None => None,
        }
    }
}

/// The position of the binary's name: after the program, and after a `gha` that follows
/// the program.
pub open spec fn binary_position(args: Seq<Seq<char>>, start: int) -> int {
    if args[start + 1] == "gha"@ {
        start + 2
    } else {
        start + 1
    }
}

/// The arguments name a binary wherever they name the program; looking the binary up
/// past the last argument would panic.
pub open spec fn invocation_in_bounds(args: Seq<Seq<char>>) -> bool {
    match cargo_gha_position(args) {
        None => true,
        Some(start) => start + 1 < args.len() && (args[start + 1] == "gha"@ ==> start + 2
            < args.len()),
    }
}

/// The binary to run and its arguments, where the program is among the arguments.
pub open spec fn binary_call(args: Seq<Seq<char>>) -> Option<(Seq<char>, Seq<Seq<char>>)> {
    match cargo_gha_position(args) {
        None => None,
        Some(start) => {
            let b = binary_position(args, start);
            Some((args[b], args.skip(b + 1)))
        },
    }
}

proof fn lemma_position_found(args: Seq<Seq<char>>, i: int)
    requires
        0 <= i < args.len(),
        ends_with_seq(args[i], "/cargo-gha"@),
        forall|j: int| 0 <= j < i ==> !ends_with_seq(#[trigger] args[j], "/cargo-gha"@),
    ensures
        cargo_gha_position(args) == Some(i),
    decreases i,
{
    if i > 0 {
        lemma_position_found(args.drop_first(), i - 1);
    }
}

proof fn lemma_position_absent(args: Seq<Seq<char>>)
    requires
        forall|j: int| 0 <= j < args.len() ==> !ends_with_seq(#[trigger] args[j], "/cargo-gha"@),
    ensures
        cargo_gha_position(args) is None,
    decreases args.len(),
{
    if args.len() > 0 {
        lemma_position_absent(args.drop_first());
    }
}

/// The position of the first argument that ends in `/cargo-gha`.
pub fn cargo_gha_index(args: &Vec<String>) -> (r: Option<usize>)
    ensures
        r matches Some(i) ==> cargo_gha_position(views(args@)) == Some(i as int),
        r is None ==> cargo_gha_position(views(args@)) is None,
{
    let n = args.len();
    let mut i: usize = 0;
    while i < n
        invariant
            n == args@.len(),
            i <= n,
            forall|j: int| 0 <= j < i ==> !ends_with_seq(#[trigger] views(args@)[j], "/cargo-gha"@),
        decreases n - i,
    {
        if ends_with(args[i].as_str(), "/cargo-gha") {
            proof {
                lemma_position_found(views(args@), i as int);
            }
            return Some(i);
        }
        i += 1;
    }
    proof {
        lemma_position_absent(views(args@));
    }
    None
}

/// What an invocation of `cargo gha` asks for.
#[derive(Debug)]
pub enum Command {
    /// Add the asset of the repository that the URL names.
    Add(String),
    /// Install every configured asset that is not installed yet.
    Install,
    /// Print the help text.
    Help,
    /// Run a binary with the arguments that follow its name.
    Run { binary_name: String, args: Vec<String> },
}

/// What an invocation asks for, from its `--add` value, its `--install` and `--help`
/// flags and the process arguments: `--add` first, then `--install`, then `--help`, then
/// the binary named after the program, and the help text where no program is found.
pub fn choose_command(add: Option<String>, install: bool, help: bool, args: &Vec<String>) -> (r:
    Command)
    requires
        add is None && !install && !help ==> invocation_in_bounds(views(args@)),
    ensures
        add matches Some(url) ==> r == Command::Add(url),
        add is None && install ==> r is Install,
        add is None && !install && help ==> r is Help,
        add is None && !install && !help ==> match binary_call(views(args@)) {
            None => r is Help,
            Some((name, rest)) => r matches Command::Run { binary_name, args } && binary_name@
                == name && views(args@) == rest,
        },
{
    if let Some(url) = add {
        return Command::Add(url);
    }
    if install {
        return Command::Install;
    }
    if help {
        return Command::Help;
    }
    let start = match cargo_gha_index(args) {
        None => {
            return Command::Help;
        },
        Some(start) => start,
    };
    let n = args.len();
    let ghost a = views(args@);
    assert(a.len() == args@.len());
    assert(invocation_in_bounds(a));
    assert(cargo_gha_position(a) == Some(start as int));
    assert(start + 1 < args@.len());
    assert(a[start + 1] == "gha"@ ==> start + 2 < args@.len());
    let mut bin_index = start + 1;
    assert(args@[bin_index as int]@ == a[bin_index as int]);
    if equal(args[bin_index].as_str(), "gha") {
        bin_index += 1;
    }
    assert(bin_index as int == binary_position(a, start as int));
    let binary_name = args[bin_index].clone();
    let mut rest: Vec<String> = Vec::new();
    let mut i = bin_index + 1;
    while i < n
        invariant
            n == args@.len(),
            a == views(args@),
            bin_index < n,
            bin_index + 1 <= i <= n,
            views(rest@) == a.subrange(bin_index + 1, i as int),
        decreases n - i,
    {
        let ghost prev = rest@;
        let piece = args[i].clone();
        rest.push(piece);
        assert(views(rest@) =~= views(prev).push(piece@));
        assert(views(rest@) =~= a.subrange(bin_index + 1, i + 1));
        i += 1;
    }
    assert(a.subrange(bin_index + 1, n as int) =~= a.skip(bin_index + 1));
    Command::Run { binary_name, args: rest }
}

/// The asset whose binaries hold `binary_name`: the first such, if any.
pub fn find_asset_for_binary(assets: &Vec<Asset>, binary_name: &str) -> (r: Option<usize>)
    ensures
        r matches Some(i) ==> i < assets@.len() && views(assets@[i as int].binaries@).contains(
            binary_name@,
        ) && forall|j: int| 0 <= j < i ==> !views(assets@[j].binaries@).contains(binary_name@),
        r is None ==> forall|j: int|
            0 <= j < assets@.len() ==> !views(assets@[j].binaries@).contains(binary_name@),
{
    let n = assets.len();
    let mut i: usize = 0;
    while i < n
        invariant
            n == assets@.len(),
            i <= n,
            forall|j: int| 0 <= j < i ==> !views(assets@[j].binaries@).contains(binary_name@),
        decreases n - i,
    {
        let binaries = &assets[i].binaries;
        let m = binaries.len();
        let mut k: usize = 0;
        while k < m
            invariant
                m == binaries@.len(),
                i < n,
                n == assets@.len(),
                binaries@ == assets@[i as int].binaries@,
                forall|j: int| 0 <= j < i ==> !views(assets@[j].binaries@).contains(binary_name@),
                k <= m,
                forall|j: int| 0 <= j < k ==> views(binaries@)[j] != binary_name@,
            decreases m - k,
        {
            if equal(binaries[k].as_str(), binary_name) {
                assert(views(binaries@)[k as int] == binary_name@);
                assert(views(assets@[i as int].binaries@)[k as int] == binary_name@);
                assert(views(assets@[i as int].binaries@).contains(binary_name@));
                return Some(i);
            }
            k += 1;
        }
        i += 1;
    }
    None
}

/// What running a binary does next.
#[derive(Debug)]
pub enum RunStep {
    /// Run the file at this path.
    Run(String),
    /// Install the asset, then look again.
    Install,
    /// The binary is missing from the installed asset.
    Missing,
}

/// The next step of running `binary_name`, given the binaries found in its asset's
/// directory and whether the asset was installed a moment ago: run the first binary of
/// that name; else install the asset, or, after installing, report it missing.
pub fn run_binary_step(binary_name: &str, binaries: &Vec<WalkedEntry>, just_installed: bool) -> (r:
    RunStep)
    ensures
        r matches RunStep::Run(path) ==> exists|i: int|
            0 <= i < binaries@.len() && binaries@[i].file_name@ == binary_name@ && path
                == binaries@[i].path && forall|j: int|
                0 <= j < i ==> binaries@[j].file_name@ != binary_name@,
        !(r is Run) ==> forall|j: int|
            0 <= j < binaries@.len() ==> binaries@[j].file_name@ != binary_name@,
        r is Install <==> (!(r is Run) && !just_installed),
        r is Missing <==> (!(r is Run) && just_installed),
{
    let n = binaries.len();
    let mut i: usize = 0;
    while i < n
        invariant
            n == binaries@.len(),
            i <= n,
            forall|j: int| 0 <= j < i ==> binaries@[j].file_name@ != binary_name@,
        decreases n - i,
    {
        if equal(binaries[i].file_name.as_str(), binary_name) {
            return RunStep::Run(binaries[i].path.clone());
        }
        i += 1;
    }
    if just_installed {
        RunStep::Missing
    } else {
        RunStep::Install
    }
}

/// The assets to download when installing: those whose directory is missing, in
/// configuration order.
pub fn assets_to_install(installed: &Vec<bool>) -> (r: Vec<usize>)
    ensures
        forall|k: int| 0 <= k < r@.len() ==> r@[k] < installed@.len() && !installed@[r@[k] as int],
        forall|k: int, l: int| 0 <= k < l < r@.len() ==> r@[k] < r@[l],
        forall|i: int| 0 <= i < installed@.len() && !installed@[i] ==> r@.contains(i as usize),
{
    let mut out: Vec<usize> = Vec::new();
    let n = installed.len();
    let mut i: usize = 0;
    while i < n
        invariant
            n == installed@.len(),
            i <= n,
            forall|k: int| 0 <= k < out@.len() ==> out@[k] < i && !installed@[out@[k] as int],
            forall|k: int, l: int| 0 <= k < l < out@.len() ==> out@[k] < out@[l],
            forall|j: int| 0 <= j < i && !installed@[j] ==> out@.contains(j as usize),
        decreases n - i,
    {
        if !installed[i] {
            let ghost before = out@;
            out.push(i);
            proof {
                assert(out@[before.len() as int] == i);
                assert forall|j: int| 0 <= j < i + 1 && !installed@[j] implies out@.contains(j as usize) by {
                    if j < i {
                        let k = choose|k: int| 0 <= k < before.len() && before[k] == j as usize;
                        assert(out@[k] == j as usize);
                    }
                }
            }
        }
        i += 1;
    }
    out
}

/// The program is the first argument that ends in `/cargo-gha`: `cargo_gha_position`
/// finds `i` exactly where argument `i` does and no earlier one does.
pub proof fn lemma_program_position(args: Seq<Seq<char>>, i: int)
    ensures
        cargo_gha_position(args) == Some(i) <==> (0 <= i < args.len() && ends_with_seq(
            args[i],
            "/cargo-gha"@,
        ) && forall|j: int| 0 <= j < i ==> !ends_with_seq(#[trigger] args[j], "/cargo-gha"@)),
        cargo_gha_position(args) is None <==> forall|j: int|
            0 <= j < args.len() ==> !ends_with_seq(#[trigger] args[j], "/cargo-gha"@),
    decreases args.len(),
{
    if args.len() > 0 {
        lemma_program_position(args.drop_first(), i - 1);
        if cargo_gha_position(args) is None {
            assert forall|j: int| 0 <= j < args.len() implies !ends_with_seq(
                #[trigger] args[j],
                "/cargo-gha"@,
            ) by {
                if j > 0 {
                    assert(args[j] == args.drop_first()[j - 1]);
                }
            }
        }
        if forall|j: int| 0 <= j < args.len() ==> !ends_with_seq(#[trigger] args[j], "/cargo-gha"@) {
            lemma_position_absent(args);
        }
        if 0 <= i < args.len() && ends_with_seq(args[i], "/cargo-gha"@) && forall|j: int|
            0 <= j < i ==> !ends_with_seq(#[trigger] args[j], "/cargo-gha"@) {
            lemma_position_found(args, i);
        }
        if cargo_gha_position(args) == Some(i) && i > 0 {
            assert(!ends_with_seq(args[0], "/cargo-gha"@));
            assert forall|j: int| 0 <= j < i implies !ends_with_seq(
                #[trigger] args[j],
                "/cargo-gha"@,
            ) by {
                if j > 0 {
                    assert(args[j] == args.drop_first()[j - 1]);
                }
            }
            assert(args[i] == args.drop_first()[i - 1]);
        }
    }
}

/// The binary to run is the argument after the program, or after a `gha` that follows
/// it, and it is given every argument that follows its name, in order.
pub proof fn lemma_binary_call_arguments(args: Seq<Seq<char>>, start: int)
    requires
        invocation_in_bounds(args),
        cargo_gha_position(args) == Some(start),
    ensures
        binary_call(args) matches Some((name, rest)) && {
            let b = if args[start + 1] == "gha"@ {
                start + 2
            } else {
                start + 1
            };
            &&& name == args[b]
            &&& rest.len() == args.len() - b - 1
            &&& forall|i: int| 0 <= i < rest.len() ==> #[trigger] rest[i] == args[b + 1 + i]
        },
{
    lemma_program_position(args, start);
}

} // verus!
