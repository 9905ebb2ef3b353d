//! The decisions of adding an asset interactively: which repository a URL names, which
//! release files are archives, and the asset that the answers describe.
use crate::filesystem::WalkedEntry;
use crate::manifest::distinct_keys;
use crate::manifest::lemma_pairs_map_at;
use crate::manifest::pairs_map;
use crate::manifest::Asset;
use crate::manifest::TargetArchives;
use crate::binary::resolved_archive;
use crate::binary::tag_without_v;
use crate::text::ends_with;
use crate::text::lacks;
use crate::text::lemma_replaced_absent;
use crate::text::lemma_replaced_concat;
use crate::text::lemma_replaced_lacks;
use crate::text::lemma_replaced_plain_prefix;
use crate::text::occurs_in;
use crate::text::ends_with_seq;
use crate::text::replace;
use crate::text::replaced;
use crate::text::split;
use crate::text::split_seq;
use crate::text::views;
use vstd::prelude::*;

verus! {

/// `s` without one trailing `/`, where it has one.
pub open spec fn without_trailing_slash(s: Seq<char>) -> Seq<char> {
    if s.len() > 0 && s.last() == '/' {
        s.drop_last()
    } else {
        s
    }
}

/// The `owner/repo` that an `--add` argument names: every `https://github.com/` taken
/// out, then one trailing `/`.
pub open spec fn owner_repo_of(url: Seq<char>) -> Seq<char> {
    without_trailing_slash(replaced(url, "https://github.com/"@, Seq::<char>::empty()))
}

/// The `owner/repo` of a GitHub repository given by URL or as `owner/repo`.
pub fn owner_repo_from_url(url: &str) -> (r: String)
    ensures
        r@ == owner_repo_of(url@),
{
    proof {
        reveal_strlit("");
        assert(""@ =~= Seq::<char>::empty());
    }
    let stripped = replace(url, "https://github.com/", "");
    let n = stripped.as_str().unicode_len();
    if n > 0 && stripped.as_str().get_char(n - 1) == '/' {
        let r = String::from_str(stripped.as_str().substring_char(0, n - 1));
        assert(r@ =~= stripped@.drop_last());
        r
    } else {
        stripped
    }
}

/// Naming a repository by its GitHub URL or by `owner/repo` alone comes to the same:
/// for every text `s`, `https://github.com/` followed by `s` names what `s` names.
pub proof fn lemma_url_names_same_repo(s: Seq<char>)
    ensures
        owner_repo_of("https://github.com/"@ + s) == owner_repo_of(s),
{
    reveal_strlit("https://github.com/");
    let prefix = "https://github.com/"@;
    let t = prefix + s;
    assert(t.take(prefix.len() as int) =~= prefix);
    assert(t.skip(prefix.len() as int) =~= s);
    assert(replaced(t, prefix, Seq::<char>::empty()) =~= replaced(s, prefix, Seq::<char>::empty()));
}

/// Whether `owner_repo` has an owner and a repository part: a `/` in it.
pub fn has_owner_and_repo(owner_repo: &str) -> (r: bool)
    ensures
        r == (split_seq(owner_repo@, '/').len() >= 2),
{
    split(owner_repo, '/').len() >= 2
}

/// The owner and the repository of `owner/repo`: the first two pieces between `/`s.
pub fn split_owner_repo(owner_repo: &str) -> (r: (String, String))
    requires
        split_seq(owner_repo@, '/').len() >= 2,
    ensures
        r.0@ == split_seq(owner_repo@, '/')[0],
        r.1@ == split_seq(owner_repo@, '/')[1],
{
    let parts = split(owner_repo, '/');
    assert(views(parts@)[0] == parts@[0]@);
    assert(views(parts@)[1] == parts@[1]@);
    (parts[0].clone(), parts[1].clone())
}

/// A release file that can be installed from: a `.zip`, `.tar.gz` or `.tar.xz` archive.
pub open spec fn is_release_archive(name: Seq<char>) -> bool {
    ends_with_seq(name, ".zip"@) || ends_with_seq(name, ".tar.gz"@) || ends_with_seq(
        name,
        ".tar.xz"@,
    )
}

/// Whether a release file is an archive that can be installed from.
pub fn is_archive_name(name: &str) -> (r: bool)
    ensures
        r == is_release_archive(name@),
{
    ends_with(name, ".zip") || ends_with(name, ".tar.gz") || ends_with(name, ".tar.xz")
}

/// The archives among the files of a release, in release order.
pub fn release_archive_names(names: &Vec<String>) -> (r: Vec<String>)
    ensures
        views(r@) == views(names@).filter(|n: Seq<char>| is_release_archive(n)),
{
    let ghost pred = |n: Seq<char>| is_release_archive(n);
    let mut out: Vec<String> = Vec::new();
    let n = names.len();
    let mut i: usize = 0;
    while i < n
        invariant
            n == names@.len(),
            i <= n,
            pred == (|n: Seq<char>| is_release_archive(n)),
            views(out@) == views(names@).take(i as int).filter(pred),
        decreases n - i,
    {
        let ghost prev = out@;
        if is_archive_name(names[i].as_str()) {
            let name = names[i].clone();
            out.push(name);
            assert(views(out@) =~= views(prev).push(name@));
        }
        proof {
            let t = views(names@).take(i + 1);
            assert(t.drop_last() =~= views(names@).take(i as int));
            assert(t.last() == names@[i as int]@);
            reveal_with_fuel(Seq::<_>::filter, 1);
            assert(t.filter(pred) == (if pred(t.last()) {
                t.drop_last().filter(pred).push(t.last())
            } else {
                t.drop_last().filter(pred)
            }));
            assert(views(out@) =~= t.filter(pred));
        }
        i += 1;
    }
    assert(views(names@).take(n as int) =~= views(names@));
    out
}

/// The template recorded for an archive name: the tag replaced by `{TAG}`, then the tag
/// without its `v`s replaced by `{NOVTAG}`.
pub open spec fn archive_template_of(name: Seq<char>, tag: Seq<char>) -> Seq<char> {
    replaced(
        replaced(name, tag, "{TAG}"@),
        replaced(tag, "v"@, Seq::<char>::empty()),
        "{NOVTAG}"@,
    )
}

/// The template recorded for an archive of a release with the given tag.
pub fn archive_template(name: &str, tag: &str) -> (r: String)
    ensures
        r@ == archive_template_of(name@, tag@),
{
    proof {
        reveal_strlit("");
        assert(""@ =~= Seq::<char>::empty());
    }
    let with_tag = replace(name, tag, "{TAG}");
    let novtag = replace(tag, "v", "");
    replace(with_tag.as_str(), novtag.as_str(), "{NOVTAG}")
}

/// The (target, template) pairs that the answers choose: for target `i`, the template of
/// the archive at `choices[i]`.
pub open spec fn chosen_pairs(
    targets: Seq<Seq<char>>,
    archives: Seq<Seq<char>>,
    choices: Seq<usize>,
    tag: Seq<char>,
) -> Seq<(Seq<char>, Seq<char>)> {
    Seq::new(targets.len(), |i: int| (targets[i], archive_template_of(archives[choices[i] as int], tag)))
}

/// The asset that the answers of an interactive add describe: the repository, the chosen
/// release's tag, no binaries yet, and for each target the template of the archive chosen
/// for it (a later answer for a repeated target wins).
pub fn asset_for_release(
    owner_repo: String,
    tag: String,
    targets: &Vec<String>,
    archives: &Vec<String>,
    choices: &Vec<usize>,
) -> (r: Asset)
    requires
        choices@.len() == targets@.len(),
        forall|i: int| 0 <= i < choices@.len() ==> choices@[i] < archives@.len(),
    ensures
        r.owner_repo == owner_repo,
        r.tag == tag,
        r.binaries@.len() == 0,
        r.target_archives@ == pairs_map(chosen_pairs(views(targets@), views(archives@), choices@, tag@)),
{
    let mut target_archives = TargetArchives::new();
    let ghost all = chosen_pairs(views(targets@), views(archives@), choices@, tag@);
    let n = targets.len();
    let mut i: usize = 0;
    assert(all.take(0) =~= Seq::<(Seq<char>, Seq<char>)>::empty());
    while i < n
        invariant
            n == targets@.len(),
            choices@.len() == n,
            forall|j: int| 0 <= j < n ==> choices@[j] < archives@.len(),
            all == chosen_pairs(views(targets@), views(archives@), choices@, tag@),
            i <= n,
            target_archives@ == pairs_map(all.take(i as int)),
        decreases n - i,
    {
        let name = archive_template(archives[choices[i]].as_str(), tag.as_str());
        target_archives.insert(targets[i].clone(), name);
        assert(all.take(i + 1).drop_last() =~= all.take(i as int));
        i += 1;
    }
    assert(all.take(n as int) =~= all);
    Asset { owner_repo, tag, binaries: Vec::new(), target_archives }
}

/// The file names of the binaries found in an asset directory, in walking order.
pub fn binary_names(binaries: &Vec<WalkedEntry>) -> (r: Vec<String>)
    ensures
        r@.len() == binaries@.len(),
        forall|i: int| 0 <= i < r@.len() ==> r@[i] == binaries@[i].file_name,
{
    let mut out: Vec<String> = Vec::new();
    let n = binaries.len();
    let mut i: usize = 0;
    while i < n
        invariant
            n == binaries@.len(),
            i <= n,
            out@.len() == i,
            forall|j: int| 0 <= j < i ==> out@[j] == binaries@[j].file_name,
        decreases n - i,
    {
        out.push(binaries[i].file_name.clone());
        i += 1;
    }
    out
}

/// The template recorded for a release archive resolves, for the same tag, to the
/// archive's name again, so the asset downloads the archive that was chosen. This holds
/// where the name has no `{`, the tag has no `{` or `}`, and the tag without its `v`s is
/// not empty and does not occur in `{TAG}`.
pub proof fn lemma_template_resolves_to_archive(name: Seq<char>, tag: Seq<char>)
    requires
        lacks(name, '{'),
        lacks(tag, '{'),
        lacks(tag, '}'),
        tag.len() > 0,
        tag_without_v(tag).len() > 0,
        !occurs_in("{TAG}"@, tag_without_v(tag)),
    ensures
        resolved_archive(archive_template_of(name, tag), tag) == name,
    decreases name.len(),
{
    reveal_strlit("{TAG}");
    reveal_strlit("{NOVTAG}");
    reveal_strlit("v");
    let m1 = "{TAG}"@;
    let m2 = "{NOVTAG}"@;
    let nov = tag_without_v(tag);
    let empty = Seq::<char>::empty();
    assert(m1 =~= seq!['{', 'T', 'A', 'G', '}']);
    assert(m2 =~= seq!['{', 'N', 'O', 'V', 'T', 'A', 'G', '}']);
    lemma_replaced_lacks(tag, "v"@, empty, '{');
    lemma_replaced_lacks(tag, "v"@, empty, '}');
    let y = replaced(name, tag, m1);
    assert(archive_template_of(name, tag) == replaced(y, nov, m2));
    if name.len() == 0 {
        assert(y =~= empty);
        assert(replaced(y, nov, m2) =~= empty);
        assert(replaced(empty, m1, tag) =~= empty);
        assert(replaced(empty, m2, nov) =~= empty);
    } else if tag.len() <= name.len() && name.take(tag.len() as int) == tag {
        let rest = name.skip(tag.len() as int);
        let x = replaced(rest, tag, m1);
        assert(y == m1 + x);
        // The marker passes the second replacement untouched.
        assert forall|i: int|
            0 <= i < m1.len() && m1.len() < i + nov.len() <= m1.len() + x.len() implies #[trigger] (m1
                + x).subrange(i, i + nov.len()) != nov by {
            assert((m1 + x).subrange(i, i + nov.len())[4 - i] == '}');
        }
        lemma_replaced_concat(m1, x, nov, m2);
        lemma_replaced_absent(m1, nov, m2);
        let z = replaced(x, nov, m2);
        assert(replaced(y, nov, m2) == m1 + z);
        // The marker turns back into the tag.
        assert((m1 + z).take(5) =~= m1);
        assert((m1 + z).skip(5) =~= z);
        let w = replaced(z, m1, tag);
        assert(replaced(m1 + z, m1, tag) == tag + w);
        // The tag passes the last replacement untouched.
        assert forall|i: int|
            0 <= i < tag.len() && tag.len() < i + m2.len() <= tag.len() + w.len() implies #[trigger] (
            tag + w).subrange(i, i + m2.len()) != m2 by {
            assert((tag + w).subrange(i, i + m2.len())[0] == tag[i]);
        }
        assert(!occurs_in(tag, m2)) by {
            if occurs_in(tag, m2) {
                let i = choose|i: int| 0 <= i && i + m2.len() <= tag.len() && #[trigger] tag.subrange(i, i + m2.len()) == m2;
                assert(tag.subrange(i, i + m2.len())[0] == tag[i]);
            }
        }
        lemma_replaced_concat(tag, w, m2, nov);
        lemma_replaced_absent(tag, m2, nov);
        lemma_template_resolves_to_archive(rest, tag);
        assert(tag + rest =~= name);
    } else {
        let n2 = name.drop_first();
        let y2 = replaced(n2, tag, m1);
        assert(y == seq![name[0]] + y2);
        let k = nov.len() as int;
        if k <= y.len() && y.take(k) == nov {
            assert forall|j: int| 0 <= j < k implies y[j] != m1[0] by {
                assert(y[j] == nov[j]);
            }
            lemma_replaced_plain_prefix(name, tag, m1, k);
            let rest = name.skip(k);
            assert(name.take(k) =~= y.take(k));
            assert(y.skip(k) =~= replaced(rest, tag, m1));
            let z = replaced(replaced(rest, tag, m1), nov, m2);
            assert(replaced(y, nov, m2) == m2 + z);
            // The second marker passes the first resolution untouched.
            assert forall|i: int|
                0 <= i < m2.len() && m2.len() < i + m1.len() <= m2.len() + z.len() implies #[trigger] (
                m2 + z).subrange(i, i + m1.len()) != m1 by {
                assert((m2 + z).subrange(i, i + m1.len())[0] == m2[i]);
            }
            assert(!occurs_in(m2, m1)) by {
                if occurs_in(m2, m1) {
                    let i = choose|i: int| 0 <= i && i + m1.len() <= m2.len() && #[trigger] m2.subrange(i, i + m1.len()) == m1;
                    assert(m2.subrange(i, i + m1.len())[0] == m2[i]);
                    assert(m2.subrange(i, i + m1.len())[1] == m2[i + 1]);
                }
            }
            lemma_replaced_concat(m2, z, m1, tag);
            lemma_replaced_absent(m2, m1, tag);
            let w = replaced(z, m1, tag);
            assert(replaced(m2 + z, m1, tag) == m2 + w);
            assert((m2 + w).take(8) =~= m2);
            assert((m2 + w).skip(8) =~= w);
            assert(replaced(m2 + w, m2, nov) == nov + replaced(w, m2, nov));
            lemma_template_resolves_to_archive(rest, tag);
            assert(nov + rest =~= name);
        } else {
            let z = replaced(y2, nov, m2);
            assert(y.drop_first() =~= y2);
            assert(y[0] == name[0]);
            assert(replaced(y, nov, m2) == seq![name[0]] + z);
            let w = replaced(z, m1, tag);
            assert(replaced(seq![name[0]] + z, m1, tag) == seq![name[0]] + w) by {
                let u = seq![name[0]] + z;
                assert(u.drop_first() =~= z);
                if m1.len() <= u.len() && u.take(m1.len() as int) == m1 {
                    assert(u.take(m1.len() as int)[0] == name[0]);
                }
            }
            assert(replaced(seq![name[0]] + w, m2, nov) == seq![name[0]] + replaced(w, m2, nov)) by {
                let u = seq![name[0]] + w;
                assert(u.drop_first() =~= w);
                if m2.len() <= u.len() && u.take(m2.len() as int) == m2 {
                    assert(u.take(m2.len() as int)[0] == name[0]);
                }
            }
            lemma_template_resolves_to_archive(n2, tag);
            assert(seq![name[0]] + n2 =~= name);
        }
    }
}

/// An asset added for distinct targets downloads, for each target, the archive that was
/// chosen for it: its configured template resolves to that archive's name (under the
/// conditions of the template law).
pub proof fn lemma_added_asset_downloads_chosen_archive(
    targets: Seq<Seq<char>>,
    archives: Seq<Seq<char>>,
    choices: Seq<usize>,
    tag: Seq<char>,
    i: int,
)
    requires
        choices.len() == targets.len(),
        forall|j: int| 0 <= j < choices.len() ==> choices[j] < archives.len(),
        forall|a: int, b: int| 0 <= a < b < targets.len() ==> targets[a] != targets[b],
        0 <= i < targets.len(),
        lacks(archives[choices[i] as int], '{'),
        lacks(tag, '{'),
        lacks(tag, '}'),
        tag.len() > 0,
        tag_without_v(tag).len() > 0,
        !occurs_in("{TAG}"@, tag_without_v(tag)),
    ensures
        pairs_map(chosen_pairs(targets, archives, choices, tag)).contains_key(targets[i]),
        resolved_archive(pairs_map(chosen_pairs(targets, archives, choices, tag))[targets[i]], tag)
            == archives[choices[i] as int],
{
    let pairs = chosen_pairs(targets, archives, choices, tag);
    assert(distinct_keys(pairs));
    lemma_pairs_map_at(pairs, i);
    lemma_template_resolves_to_archive(archives[choices[i] as int], tag);
}

} // verus!
