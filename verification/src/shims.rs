//! The shell scripts placed under `.gha/.shims`, one per binary, that run the binary
//! through `cargo gha`.
use crate::filesystem::has_extension;
use crate::filesystem::path_join;
use crate::filesystem::path_joined;
use crate::text::split;
use crate::text::split_seq;
use crate::text::views;
use vstd::prelude::*;

verus! {

/// The directory that holds the shims.
pub fn shims_dir(project_root: &str) -> (r: String)
    ensures
        r@ == path_joined(project_root@, ".gha/.shims"@),
{
    path_join(project_root, ".gha/.shims")
}

/// The shell a shim runs under: the last `/`-separated piece of `$SHELL`, or `bash`
/// where it is unset.
pub open spec fn shell_name_of(shell: Option<Seq<char>>) -> Seq<char> {
    let s = match shell {
        Some(s) => s,
        None => "bash"@,
    };
    split_seq(s, '/').last()
}

/// The shell named by `$SHELL`, given its value.
pub fn shell_name(shell: Option<&str>) -> (r: String)
    ensures
        r@ == shell_name_of(
            match shell {
                Some(s) => Some(s@),
                None => None,
            },
        ),
{
    let parts = match shell {
        Some(s) => split(s, '/'),
        None => split("bash", '/'),
    };
    let n = parts.len();
    proof {
        match shell {
            Some(s) => crate::text::lemma_split_nonempty(s@, '/'),
            None => crate::text::lemma_split_nonempty("bash"@, '/'),
        }
    }
    assert(n > 0);
    assert(views(parts@).last() == parts@[n - 1]@);
    parts[n - 1].clone()
}

/// The text of the shim for `binary`: a script for `shell` that runs `cargo gha binary`
/// with the script's arguments, piping standard input through where it is not a
/// terminal.
pub open spec fn shim_script_text(shell: Seq<char>, binary: Seq<char>) -> Seq<char> {
    "#!/usr/bin/env "@ + shell + "\n\nif [ ! -t 0 ]; then\n    cat - | cargo gha "@ + binary
        + " \"$@\"\nelse\n    cargo gha "@ + binary + " \"$@\"\nfi"@
}

/// The shim script for `binary` under `shell`.
pub fn shim_script(shell: &str, binary: &str) -> (r: String)
    ensures
        r@ == shim_script_text(shell@, binary@),
{
    let mut script = String::from_str("#!/usr/bin/env ");
    script.append(shell);
    script.append("\n\nif [ ! -t 0 ]; then\n    cat - | cargo gha ");
    script.append(binary);
    script.append(" \"$@\"\nelse\n    cargo gha ");
    script.append(binary);
    script.append(" \"$@\"\nfi");
    script
}

/// The position just after the last `/` of a path, or 0 where it has none: where its
/// file name starts.
pub open spec fn name_start(p: Seq<char>) -> int
    decreases p.len(),
{
    if p.len() == 0 {
        0
    } else if p.last() == '/' {
        p.len() as int
    } else {
        name_start(p.drop_last())
    }
}

/// The position of the last `.` of a text, or -1 where it has none.
pub open spec fn last_dot(s: Seq<char>) -> int
    decreases s.len(),
{
    if s.len() == 0 {
        -1
    } else if s.last() == '.' {
        s.len() - 1
    } else {
        last_dot(s.drop_last())
    }
}

/// A path with the extension of its file name cut off, as `set_extension("")` does,
/// the file name taken as the text after the last `/`.
pub open spec fn extension_removed(p: Seq<char>) -> Seq<char> {
    let start = name_start(p);
    let name = p.skip(start);
    if has_extension(name) {
        p.take(start + last_dot(name))
    } else {
        p
    }
}

proof fn lemma_last_index(s: Seq<char>, c: char, k: int)
    requires
        -1 <= k < s.len(),
        k >= 0 ==> s[k] == c,
        forall|j: int| k < j < s.len() ==> s[j] != c,
    ensures
        c == '/' ==> (if k >= 0 {
            name_start(s) == k + 1
        } else {
            name_start(s) == 0
        }),
        c == '.' ==> last_dot(s) == k,
    decreases s.len(),
{
    if s.len() > 0 && k < s.len() - 1 {
        lemma_last_index(s.drop_last(), c, k);
    }
}

/// The last position in `s` before `end` that holds `c`, if any.
fn last_index_of(s: &str, c: char, end: usize) -> (r: Option<usize>)
    requires
        end <= s@.len(),
    ensures
        r matches Some(k) ==> k < end && s@[k as int] == c && forall|j: int| k < j < end ==> s@[j] != c,
        r is None ==> forall|j: int| 0 <= j < end ==> s@[j] != c,
{
    let mut i = end;
    while i > 0
        invariant
            i <= end,
            end <= s@.len(),
            forall|j: int| i <= j < end ==> s@[j] != c,
        decreases i,
    {
        if s.get_char(i - 1) == c {
            return Some(i - 1);
        }
        i -= 1;
    }
    None
}

/// The path of the shim for `binary` in `dir`: the binary's name joined to the
/// directory, its extension removed.
pub fn shim_path(dir: &str, binary: &str) -> (r: String)
    ensures
        r@ == extension_removed(path_joined(dir@, binary@)),
{
    let joined = path_join(dir, binary);
    let p = joined.as_str();
    let n = p.unicode_len();
    let start: usize = match last_index_of(p, '/', n) {
        Some(k) => {
            proof {
                lemma_last_index(p@, '/', k as int);
            }
            k + 1
        },
        None => {
            proof {
                lemma_last_index(p@, '/', -1);
            }
            0
        },
    };
    let name = p.substring_char(start, n);
    let m = name.unicode_len();
    assert(name@ =~= p@.skip(start as int));
    if crate::filesystem::file_has_extension(name) {
        let dot: usize = match last_index_of(name, '.', m) {
            Some(k) => {
                proof {
                    lemma_last_index(name@, '.', k as int);
                }
                k
            },
            None => {
                proof {
                    lemma_last_index(name@, '.', -1);
                }
                0
            },
        };
        let cut = start + dot;
        let r = String::from_str(p.substring_char(0, cut));
        assert(r@ =~= p@.take(cut as int));
        r
    } else {
        joined
    }
}

/// A shim to be written where no file stands yet.
#[derive(Debug, PartialEq)]
pub struct ShimFile {
    pub path: String,
    pub script: String,
}

/// The (path, script) of the shim of each of `binaries`.
pub open spec fn shim_files_of(dir: Seq<char>, shell: Seq<char>, binaries: Seq<Seq<char>>) -> Seq<
    (Seq<char>, Seq<char>),
> {
    binaries.map_values(
        |b: Seq<char>| (extension_removed(path_joined(dir, b)), shim_script_text(shell, b)),
    )
}

/// The (path, script) of the shim of every binary of every asset, asset after asset.
pub open spec fn all_shim_files(dir: Seq<char>, shell: Seq<char>, assets: Seq<
    crate::manifest::Asset,
>) -> Seq<(Seq<char>, Seq<char>)> {
    assets.map_values(
        |a: crate::manifest::Asset| shim_files_of(dir, shell, views(a.binaries@)),
    ).flatten()
}

/// The (path, script) of shim files.
pub open spec fn shim_views(files: Seq<ShimFile>) -> Seq<(Seq<char>, Seq<char>)> {
    files.map_values(|f: ShimFile| (f.path@, f.script@))
}

/// The shims for every binary of every asset, in order: each at the shim path of the
/// binary in `dir`, running the binary under `shell`.
pub fn create(dir: &str, shell: &str, assets: &Vec<crate::manifest::Asset>) -> (r: Vec<ShimFile>)
    ensures
        shim_views(r@) == all_shim_files(dir@, shell@, assets@),
{
    let ghost per_asset = assets@.map_values(
        |a: crate::manifest::Asset| shim_files_of(dir@, shell@, views(a.binaries@)),
    );
    let mut out: Vec<ShimFile> = Vec::new();
    let n = assets.len();
    let mut i: usize = 0;
    assert(per_asset.take(0) =~= Seq::<Seq<(Seq<char>, Seq<char>)>>::empty());
    assert(shim_views(out@) =~= per_asset.take(0).flatten());
    while i < n
        invariant
            n == assets@.len(),
            i <= n,
            per_asset == assets@.map_values(
                |a: crate::manifest::Asset| shim_files_of(dir@, shell@, views(a.binaries@)),
            ),
            shim_views(out@) == per_asset.take(i as int).flatten(),
        decreases n - i,
    {
        let binaries = &assets[i].binaries;
        let ghost files = shim_files_of(dir@, shell@, views(binaries@));
        let ghost before = shim_views(out@);
        let m = binaries.len();
        let mut k: usize = 0;
        assert(before + files.take(0) =~= before);
        while k < m
            invariant
                m == binaries@.len(),
                k <= m,
                files == shim_files_of(dir@, shell@, views(binaries@)),
                shim_views(out@) == before + files.take(k as int),
            decreases m - k,
        {
            let binary = binaries[k].as_str();
            let file = ShimFile { path: shim_path(dir, binary), script: shim_script(shell, binary) };
            let ghost prev = out@;
            out.push(file);
            assert(shim_views(out@) =~= shim_views(prev).push((file.path@, file.script@)));
            assert(files.take(k + 1) =~= files.take(k as int).push(files[k as int]));
            k += 1;
        }
        proof {
            assert(files.take(m as int) =~= files);
            assert(per_asset[i as int] == files);
            assert(per_asset.take(i + 1) =~= per_asset.take(i as int).push(files));
            per_asset.take(i as int).lemma_flatten_push(files);
        }
        i += 1;
    }
    assert(per_asset.take(n as int) =~= per_asset);
    out
}

/// The shim for a binary runs `cargo gha` on exactly that binary's name, followed by the
/// script's arguments, both where standard input is piped through and where it is not.
pub proof fn lemma_shim_runs_the_binary(shell: Seq<char>, binary: Seq<char>)
    ensures
        ({
            let text = shim_script_text(shell, binary);
            let call = "cargo gha "@ + binary + " \"$@\""@;
            let piped = "#!/usr/bin/env "@ + shell + "\n\nif [ ! -t 0 ]; then\n    cat - | "@;
            let plain = piped + call + "\nelse\n    "@;
            &&& text.subrange(piped.len() as int, piped.len() as int + call.len()) == call
            &&& text.subrange(plain.len() as int, plain.len() as int + call.len()) == call
            &&& text.len() == plain.len() as int + call.len() + 3
        }),
{
    reveal_strlit("#!/usr/bin/env ");
    reveal_strlit("\n\nif [ ! -t 0 ]; then\n    cat - | cargo gha ");
    reveal_strlit(" \"$@\"\nelse\n    cargo gha ");
    reveal_strlit(" \"$@\"\nfi");
    reveal_strlit("cargo gha ");
    reveal_strlit(" \"$@\"");
    reveal_strlit("\n\nif [ ! -t 0 ]; then\n    cat - | ");
    reveal_strlit("\nelse\n    ");
    let text = shim_script_text(shell, binary);
    let call = "cargo gha "@ + binary + " \"$@\""@;
    let piped = "#!/usr/bin/env "@ + shell + "\n\nif [ ! -t 0 ]; then\n    cat - | "@;
    let plain = piped + call + "\nelse\n    "@;
    assert(text =~= plain + call + "\nfi"@) by {
        reveal_strlit("\nfi");
    }
    assert(text.subrange(piped.len() as int, piped.len() as int + call.len()) =~= call);
    assert(text.subrange(plain.len() as int, plain.len() as int + call.len()) =~= call);
    reveal_strlit("\nfi");
}

/// Different binaries get different shims: the shim text tells the binary it runs.
pub proof fn lemma_shims_differ(shell: Seq<char>, binary1: Seq<char>, binary2: Seq<char>)
    requires
        binary1 != binary2,
    ensures
        shim_script_text(shell, binary1) != shim_script_text(shell, binary2),
{
    lemma_shim_runs_the_binary(shell, binary1);
    lemma_shim_runs_the_binary(shell, binary2);
    reveal_strlit("cargo gha ");
    reveal_strlit(" \"$@\"");
    let t1 = shim_script_text(shell, binary1);
    let t2 = shim_script_text(shell, binary2);
    let piped = "#!/usr/bin/env "@ + shell + "\n\nif [ ! -t 0 ]; then\n    cat - | "@;
    let c1 = "cargo gha "@ + binary1 + " \"$@\""@;
    let c2 = "cargo gha "@ + binary2 + " \"$@\""@;
    if t1 == t2 {
        if binary1.len() == binary2.len() {
            assert(c1 == t1.subrange(piped.len() as int, piped.len() as int + c1.len()));
            assert(c2 == t2.subrange(piped.len() as int, piped.len() as int + c2.len()));
            assert(c1 == c2);
            assert(binary1 =~= c1.subrange(10, 10 + binary1.len() as int));
            assert(binary2 =~= c2.subrange(10, 10 + binary2.len() as int));
        } else {
            assert(t1.len() != t2.len());
        }
    }
}

/// Where a shim goes: the binary's name under the shims directory, its extension (the
/// text after the last `.` of the name, where that `.` is not the name's first
/// character) cut off, and a name without one kept whole.
pub proof fn lemma_shim_location(dir: Seq<char>, name: Seq<char>, stem: Seq<char>, ext: Seq<char>)
    requires
        dir.len() > 0,
        dir.last() != '/',
        name.len() > 0,
        crate::text::lacks(name, '/'),
    ensures
        (forall|i: int| 0 < i < name.len() ==> name[i] != '.') ==> extension_removed(
            path_joined(dir, name),
        ) == dir + "/"@ + name,
        name == stem + "."@ + ext && stem.len() > 0 && crate::text::lacks(ext, '.') && name != seq![
            '.',
            '.',
        ] ==> extension_removed(path_joined(dir, name)) == dir + "/"@ + stem,
{
    reveal_strlit("/");
    reveal_strlit(".");
    let p = path_joined(dir, name);
    let k = dir.len() as int;
    assert(p =~= dir + seq!['/'] + name);
    assert(p[k] == '/');
    assert forall|j: int| k < j < p.len() implies p[j] != '/' by {
        assert(p[j] == name[j - k - 1]);
    }
    lemma_last_index(p, '/', k);
    assert(p.skip(k + 1) =~= name);
    assert(dir + "/"@ + name =~= p);
    if name == stem + "."@ + ext && stem.len() > 0 && crate::text::lacks(ext, '.') && name != seq![
        '.',
        '.',
    ] {
        let d = stem.len() as int;
        assert(name[d] == '.');
        assert forall|j: int| d < j < name.len() implies name[j] != '.' by {
            assert(name[j] == ext[j - d - 1]);
        }
        lemma_last_index(name, '.', d);
        assert(has_extension(name));
        assert(p.take(k + 1 + d) =~= dir + "/"@ + stem);
    }
}

} // verus!
