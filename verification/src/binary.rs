//! Where an asset is downloaded from, how its archive is unpacked, and the `PATH` its
//! binaries run with.
use crate::filesystem::path_join;
use crate::filesystem::path_joined;
use crate::manifest::Asset;
use crate::text::ends_with;
use crate::text::ends_with_seq;
use crate::text::join;
use crate::text::joined;
use crate::text::lemma_join_split;
use crate::text::lemma_joined_concat;
use crate::text::replace;
use crate::text::replaced;
use crate::text::split;
use crate::text::split_seq;
use crate::text::views;
use vstd::prelude::*;

verus! {

/// A tag with every `v` taken out, as `tag.replace('v', "")` gives it.
pub open spec fn tag_without_v(tag: Seq<char>) -> Seq<char> {
    replaced(tag, "v"@, Seq::<char>::empty())
}

/// An archive name template with `{TAG}` filled in with the tag and then `{NOVTAG}` with
/// the tag without its `v`s.
pub open spec fn resolved_archive(template: Seq<char>, tag: Seq<char>) -> Seq<char> {
    replaced(replaced(template, "{TAG}"@, tag), "{NOVTAG}"@, tag_without_v(tag))
}

/// The name of the archive that a template stands for, for a given tag.
pub fn resolve_archive_name(template: &str, tag: &str) -> (r: String)
    ensures
        r@ == resolved_archive(template@, tag@),
{
    proof {
        reveal_strlit("");
        assert(""@ =~= Seq::<char>::empty());
    }
    let novtag = replace(tag, "v", "");
    let with_tag = replace(template, "{TAG}", tag);
    replace(with_tag.as_str(), "{NOVTAG}", novtag.as_str())
}

/// The release download URL of an archive:
/// `https://github.com/<owner/repo>/releases/download/<tag>/<archive>`.
pub open spec fn download_url(owner_repo: Seq<char>, tag: Seq<char>, archive: Seq<char>) -> Seq<
    char,
> {
    "https://github.com/"@ + owner_repo + "/releases/download/"@ + tag + "/"@ + archive
}

/// The URL of the archive that `asset` configures for `target`.
pub fn get_download_url(asset: &Asset, target: &str) -> (r: String)
    requires
        asset.target_archives@.contains_key(target@),
    ensures
        r@ == download_url(
            asset.owner_repo@,
            asset.tag@,
            resolved_archive(asset.target_archives@[target@], asset.tag@),
        ),
{
    let template = asset.target_archives.get(target).unwrap();
    let archive = resolve_archive_name(template.as_str(), asset.tag.as_str());
    let mut url = String::from_str("https://github.com/");
    url.append(asset.owner_repo.as_str());
    url.append("/releases/download/");
    url.append(asset.tag.as_str());
    url.append("/");
    url.append(archive.as_str());
    url
}

/// How a downloaded archive is unpacked.
#[derive(Clone, Copy, Debug, PartialEq, Eq, Structural)]
pub enum ArchiveKind {
    /// A gzip-compressed tar archive.
    TarGz,
    /// An xz-compressed tar archive.
    TarXz,
    /// A zip archive.
    Zip,
}

/// The kind of archive a URL names by its ending, tried in the order `.tar.gz`,
/// `.tar.xz`, `.zip`; `None` for any other URL, which is downloaded but not unpacked.
pub open spec fn archive_kind_of(url: Seq<char>) -> Option<ArchiveKind> {
    if ends_with_seq(url, ".tar.gz"@) {
        Some(ArchiveKind::TarGz)
    } else if ends_with_seq(url, ".tar.xz"@) {
        Some(ArchiveKind::TarXz)
    } else if ends_with_seq(url, ".zip"@) {
        Some(ArchiveKind::Zip)
    } else {
        None
    }
}

/// The kind of archive at a download URL.
pub fn archive_kind(url: &str) -> (r: Option<ArchiveKind>)
    ensures
        r == archive_kind_of(url@),
{
    if ends_with(url, ".tar.gz") {
        Some(ArchiveKind::TarGz)
    } else if ends_with(url, ".tar.xz") {
        Some(ArchiveKind::TarXz)
    } else if ends_with(url, ".zip") {
        Some(ArchiveKind::Zip)
    } else {
        None
    }
}

/// The directory of the project's own binaries that run ahead of the system's.
pub fn gha_bin_dir(project_root: &str) -> (r: String)
    ensures
        r@ == path_joined(project_root@, ".gha/.bin"@),
{
    path_join(project_root, ".gha/.bin")
}

/// The binaries directory of `cargo-run-bin`, used when it exists.
pub fn runbin_dir(project_root: &str) -> (r: String)
    ensures
        r@ == path_joined(project_root@, ".bin/.bin"@),
{
    path_join(project_root, ".bin/.bin")
}

/// The `PATH` a binary runs with: the project's `.gha/.bin`, then `cargo-run-bin`'s
/// `.bin/.bin` where it exists, then the entries of the caller's `PATH` (empty where it
/// is unset).
pub open spec fn run_path(project_root: Seq<char>, runbin_exists: bool, system_path: Seq<char>) -> Seq<
    char,
> {
    let gha = path_joined(project_root, ".gha/.bin"@);
    let runbin = path_joined(project_root, ".bin/.bin"@);
    if runbin_exists {
        gha + seq![':'] + runbin + seq![':'] + system_path
    } else {
        gha + seq![':'] + system_path
    }
}

/// The `PATH` for running a binary: the directories listed in front of the system path,
/// split at `:` and joined again with `:`.
pub fn shell_path(project_root: &str, runbin_exists: bool, system_path: Option<&str>) -> (r: String)
    ensures
        r@ == run_path(
            project_root@,
            runbin_exists,
            match system_path {
                Some(p) => p@,
                None => Seq::<char>::empty(),
            },
        ),
{
    let system: Vec<String> = match system_path {
        Some(p) => split(p, ':'),
        None => split("", ':'),
    };
    let ghost sys_text = match system_path {
        Some(p) => p@,
        None => Seq::<char>::empty(),
    };
    proof {
        reveal_strlit("");
        reveal_strlit(":");
        lemma_join_split(sys_text, ':');
    }
    let mut shell_paths: Vec<String> = Vec::new();
    shell_paths.push(gha_bin_dir(project_root));
    if runbin_exists {
        shell_paths.push(runbin_dir(project_root));
    }
    let ghost front = views(shell_paths@);
    let n = system.len();
    let mut i: usize = 0;
    while i < n
        invariant
            n == system@.len(),
            i <= n,
            views(shell_paths@) == front + views(system@).take(i as int),
        decreases n - i,
    {
        let ghost prev = shell_paths@;
        let piece = system[i].clone();
        shell_paths.push(piece);
        assert(shell_paths@ == prev.push(piece));
        assert(piece@ == views(system@)[i as int]);
        assert(views(shell_paths@) =~= views(prev).push(piece@));
        assert(views(system@).take(i + 1) =~= views(system@).take(i as int).push(piece@));
        assert(views(shell_paths@) =~= front + views(system@).take(i + 1));
        i += 1;
    }
    let r = join(&shell_paths, ":");
    proof {
        let sys = views(system@);
        assert(sys.take(n as int) =~= sys);
        assert(sys == split_seq(sys_text, ':'));
        assert(sys.len() >= 1) by {
            assert(joined(sys, seq![':']) == sys_text);
            if sys.len() == 0 {
                assert(joined(sys, seq![':']) == Seq::<char>::empty());
            }
        }
        assert(views(shell_paths@) == front + sys);
        assert(":"@ == seq![':']);
        assert(r@ == joined(front + sys, seq![':']));
        lemma_joined_concat(front, sys, seq![':']);
        let gha = path_joined(project_root@, ".gha/.bin"@);
        let rb = path_joined(project_root@, ".bin/.bin"@);
        if runbin_exists {
            assert(front =~= seq![gha, rb]);
            assert(front.drop_last() =~= seq![gha]);
            assert(joined(front.drop_last(), seq![':']) == gha);
            assert(joined(front, seq![':']) == gha + seq![':'] + rb);
        } else {
            assert(front =~= seq![gha]);
            assert(joined(front, seq![':']) == gha);
        }
        assert(r@ =~= run_path(project_root@, runbin_exists, sys_text));
    }
    r
}

/// What downloading an asset fetches, where it unpacks it, and how.
#[derive(Debug)]
pub struct DownloadPlan {
    /// The release URL of the archive configured for the target.
    pub url: String,
    /// The directory the archive is unpacked into.
    pub directory: String,
    /// How the archive is unpacked; `None` where its name has no known archive ending.
    pub kind: Option<ArchiveKind>,
}

/// The download of `asset` for `target` in the project at `project_root`.
pub fn download_plan(asset: &Asset, target: &str, project_root: &str) -> (r: DownloadPlan)
    requires
        asset.target_archives@.contains_key(target@),
    ensures
        r.url@ == download_url(
            asset.owner_repo@,
            asset.tag@,
            resolved_archive(asset.target_archives@[target@], asset.tag@),
        ),
        r.directory@ == path_joined(
            project_root@,
            crate::filesystem::asset_relative_dir(asset.owner_repo@, asset.tag@),
        ),
        r.kind == archive_kind_of(r.url@),
{
    let url = get_download_url(asset, target);
    let directory = crate::filesystem::get_asset_directory(project_root, asset);
    let kind = archive_kind(url.as_str());
    DownloadPlan { url, directory, kind }
}

/// Every release file that adding an asset offers is an archive that downloading
/// unpacks: a URL ending in the file's name has an archive kind.
pub proof fn lemma_offered_archives_unpack(prefix: Seq<char>, name: Seq<char>)
    requires
        crate::add_asset::is_release_archive(name),
    ensures
        archive_kind_of(prefix + name) is Some,
{
    let u = prefix + name;
    assert forall|suffix: Seq<char>| ends_with_seq(name, suffix) implies ends_with_seq(u, suffix) by {
        assert(u.skip(u.len() - suffix.len()) =~= name.skip(name.len() - suffix.len()));
    }
}

/// A download URL is `https://github.com/<owner/repo>/releases/download/`, then the tag
/// exactly as configured, then `/` and the archive name: the path segment after
/// `/releases/download/` is the tag, whatever the tag is.
pub proof fn lemma_download_url_parts(owner_repo: Seq<char>, tag: Seq<char>, archive: Seq<char>)
    ensures
        ({
            let u = download_url(owner_repo, tag, archive);
            let head = "https://github.com/"@ + owner_repo + "/releases/download/"@;
            &&& u.len() == head.len() as int + tag.len() + 1 + archive.len()
            &&& u.take(head.len() as int) == head
            &&& u.subrange(head.len() as int, head.len() as int + tag.len()) == tag
            &&& u[head.len() as int + tag.len()] == '/'
            &&& u.skip(head.len() as int + tag.len() + 1) == archive
        }),
{
    reveal_strlit("/");
    let u = download_url(owner_repo, tag, archive);
    let head = "https://github.com/"@ + owner_repo + "/releases/download/"@;
    assert(u =~= head + tag + seq!['/'] + archive);
    assert(u.take(head.len() as int) =~= head);
    assert(u.subrange(head.len() as int, head.len() as int + tag.len()) =~= tag);
    assert(u.skip(head.len() as int + tag.len() + 1) =~= archive);
}

/// Taking the `v`s out of a tag leaves no `v`, and a tag without a `v` is left as it is.
pub proof fn lemma_tag_without_v(tag: Seq<char>)
    ensures
        crate::text::lacks(tag_without_v(tag), 'v'),
        crate::text::lacks(tag, 'v') ==> tag_without_v(tag) == tag,
        tag_without_v(tag).len() <= tag.len(),
    decreases tag.len(),
{
    reveal_strlit("v");
    let v = "v"@;
    assert(v =~= seq!['v']);
    if tag.len() > 0 {
        lemma_tag_without_v(tag.drop_first());
        if tag.take(1) == v {
            assert(tag.skip(1) =~= tag.drop_first());
            assert(tag_without_v(tag) =~= Seq::<char>::empty() + tag_without_v(tag.drop_first()));
            assert(tag.take(1)[0] == tag[0]);
        } else {
            assert(tag[0] != 'v') by {
                if tag[0] == 'v' {
                    assert(tag.take(1) =~= v);
                }
            }
            assert(tag_without_v(tag) =~= seq![tag[0]] + tag_without_v(tag.drop_first()));
            if crate::text::lacks(tag, 'v') {
                assert(crate::text::lacks(tag.drop_first(), 'v'));
                assert(tag =~= seq![tag[0]] + tag.drop_first());
            }
        }
    }
}

/// Replacing a pattern that starts with `{` changes nothing in a text without `{`.
proof fn lemma_no_brace_unchanged(s: Seq<char>, f: Seq<char>, t: Seq<char>)
    requires
        f.len() > 0,
        f[0] == '{',
        crate::text::lacks(s, '{'),
    ensures
        replaced(s, f, t) == s,
{
    if crate::text::occurs_in(s, f) {
        let i = choose|i: int| 0 <= i && i + f.len() <= s.len() && #[trigger] s.subrange(i, i + f.len()) == f;
        assert(s.subrange(i, i + f.len())[0] == s[i]);
    }
    crate::text::lemma_replaced_absent(s, f, t);
}

/// Replacing a pattern that starts with `{` in `a + m + b`, where neither `a` nor `b`
/// holds a `{` and `m` starts with one, replaces in `m` alone.
proof fn lemma_replaced_middle(a: Seq<char>, m: Seq<char>, b: Seq<char>, f: Seq<char>, t: Seq<char>)
    requires
        f.len() > 0,
        f[0] == '{',
        m.len() > 0,
        m[0] == '{',
        crate::text::lacks(a, '{'),
        crate::text::lacks(b, '{'),
        replaced(m + b, f, t) == replaced(m, f, t) + b,
    ensures
        replaced(a + m + b, f, t) == a + replaced(m, f, t) + b,
{
    assert forall|i: int|
        0 <= i < a.len() && a.len() < i + f.len() <= a.len() + (m + b).len() implies #[trigger] (a + (m
            + b)).subrange(i, i + f.len()) != f by {
        assert((a + (m + b)).subrange(i, i + f.len())[0] == a[i]);
    }
    crate::text::lemma_replaced_concat(a, m + b, f, t);
    lemma_no_brace_unchanged(a, f, t);
    assert(a + m + b =~= a + (m + b));
    assert(a + replaced(m, f, t) + b =~= a + (replaced(m, f, t) + b));
}

/// An archive template is filled in by putting the tag where it says `{TAG}` and the tag
/// without its `v`s where it says `{NOVTAG}`; a template without either is the archive
/// name itself. (Texts around the placeholder and the tag hold no `{` here.)
pub proof fn lemma_archive_placeholders(before: Seq<char>, after: Seq<char>, tag: Seq<char>)
    requires
        crate::text::lacks(before, '{'),
        crate::text::lacks(after, '{'),
        crate::text::lacks(tag, '{'),
    ensures
        resolved_archive(before + after, tag) == before + after,
        resolved_archive(before + "{TAG}"@ + after, tag) == before + tag + after,
        resolved_archive(before + "{NOVTAG}"@ + after, tag) == before + tag_without_v(tag) + after,
{
    reveal_strlit("{TAG}");
    reveal_strlit("{NOVTAG}");
    reveal_strlit("v");
    reveal_strlit("");
    let ft = "{TAG}"@;
    let fn_ = "{NOVTAG}"@;
    let nv = tag_without_v(tag);
    assert(ft[0] == '{' && fn_[0] == '{');
    assert(crate::text::lacks(before + after, '{'));
    lemma_no_brace_unchanged(before + after, ft, tag);
    lemma_no_brace_unchanged(before + after, fn_, nv);
    // `{TAG}`
    assert(ft.take(ft.len() as int) =~= ft);
    assert((ft + after).take(ft.len() as int) =~= ft);
    assert((ft + after).skip(ft.len() as int) =~= after);
    lemma_no_brace_unchanged(after, ft, tag);
    assert(replaced(ft + after, ft, tag) == tag + after);
    assert(ft.skip(ft.len() as int) =~= Seq::<char>::empty());
    assert(replaced(Seq::<char>::empty(), ft, tag) == Seq::<char>::empty());
    assert(replaced(ft, ft, tag) == tag + replaced(ft.skip(ft.len() as int), ft, tag));
    assert(replaced(ft, ft, tag) =~= tag);
    lemma_replaced_middle(before, ft, after, ft, tag);
    assert(crate::text::lacks(before + tag + after, '{'));
    lemma_no_brace_unchanged(before + tag + after, fn_, nv);
    // `{NOVTAG}`
    assert(!crate::text::occurs_in(before + fn_ + after, ft)) by {
        let s = before + fn_ + after;
        if crate::text::occurs_in(s, ft) {
            let i = choose|i: int| 0 <= i && i + ft.len() <= s.len() && #[trigger] s.subrange(i, i + ft.len()) == ft;
            assert(s.subrange(i, i + ft.len())[0] == s[i]);
            assert(s.subrange(i, i + ft.len())[1] == s[i + 1]);
            if i < before.len() {
                assert(s[i] == before[i]);
            } else if i == before.len() {
                assert(s[i + 1] == fn_[1]);
            } else if i < before.len() + fn_.len() {
                assert(s[i] == fn_[i - before.len()]);
            } else {
                assert(s[i] == after[i - before.len() - fn_.len()]);
            }
        }
    }
    crate::text::lemma_replaced_absent(before + fn_ + after, ft, tag);
    assert((fn_ + after).take(fn_.len() as int) =~= fn_);
    assert((fn_ + after).skip(fn_.len() as int) =~= after);
    lemma_no_brace_unchanged(after, fn_, nv);
    assert(replaced(fn_ + after, fn_, nv) == nv + after);
    assert(fn_.take(fn_.len() as int) =~= fn_);
    assert(fn_.skip(fn_.len() as int) =~= Seq::<char>::empty());
    assert(replaced(Seq::<char>::empty(), fn_, nv) == Seq::<char>::empty());
    assert(replaced(fn_, fn_, nv) == nv + replaced(fn_.skip(fn_.len() as int), fn_, nv));
    assert(replaced(fn_, fn_, nv) =~= nv);
    lemma_replaced_middle(before, fn_, after, fn_, nv);
}

} // verus!
