//! Where assets are unpacked, and which of the unpacked files are binaries.
use crate::manifest::Asset;
use crate::text::equal;
use vstd::prelude::*;

verus! {

/// `base.join(rel)` for paths written with `/` separators: an absolute `rel` replaces
/// `base`; otherwise `rel` is appended, after a `/` unless `base` is empty or ends in one.
pub open spec fn path_joined(base: Seq<char>, rel: Seq<char>) -> Seq<char> {
    if rel.len() > 0 && rel[0] == '/' {
        rel
    } else if base.len() == 0 || base.last() == '/' {
        base + rel
    } else {
        base + seq!['/'] + rel
    }
}

/// `Path::new(base).join(rel)`, as text.
pub fn path_join(base: &str, rel: &str) -> (r: String)
    ensures
        r@ == path_joined(base@, rel@),
{
    let n = base.unicode_len();
    let m = rel.unicode_len();
    if m > 0 && rel.get_char(0) == '/' {
        return String::from_str(rel);
    }
    let mut out = String::from_str(base);
    if n > 0 && base.get_char(n - 1) != '/' {
        proof {
            reveal_strlit("/");
        }
        out.append("/");
    }
    out.append(rel);
    out
}

/// The directory of an asset relative to the project root: `.gha/<owner/repo>/<tag>/`.
pub open spec fn asset_relative_dir(owner_repo: Seq<char>, tag: Seq<char>) -> Seq<char> {
    ".gha/"@ + owner_repo + "/"@ + tag + "/"@
}

/// The directory that an asset is unpacked into: `.gha/<owner/repo>/<tag>/` under the
/// project root.
pub fn get_asset_directory(project_root: &str, asset: &Asset) -> (r: String)
    ensures
        r@ == path_joined(project_root@, asset_relative_dir(asset.owner_repo@, asset.tag@)),
{
    let mut rel = String::from_str(".gha/");
    rel.append(asset.owner_repo.as_str());
    rel.append("/");
    rel.append(asset.tag.as_str());
    rel.append("/");
    path_join(project_root, rel.as_str())
}

/// Whether `Path::extension` finds an extension in a file name: a `.` after the first
/// character, the name `..` excepted.
pub open spec fn has_extension(name: Seq<char>) -> bool {
    name != seq!['.', '.'] && exists|i: int| 0 < i < name.len() && name[i] == '.'
}

/// Whether a file with this name has an extension.
pub fn file_has_extension(name: &str) -> (r: bool)
    ensures
        r == has_extension(name@),
{
    let n = name.unicode_len();
    if n == 2 && name.get_char(0) == '.' && name.get_char(1) == '.' {
        assert(name@ =~= seq!['.', '.']);
        return false;
    }
    assert(name@ != seq!['.', '.']) by {
        if name@ =~= seq!['.', '.'] {
            assert(name@[0] == '.' && name@[1] == '.');
        }
    }
    let mut i: usize = 1;
    while i < n
        invariant
            n == name@.len(),
            name@ != seq!['.', '.'],
            1 <= i,
            forall|j: int| 0 < j < i && j < n ==> name@[j] != '.',
        decreases n - i,
    {
        if name.get_char(i) == '.' {
            return true;
        }
        i += 1;
    }
    false
}

/// Whether a Unix mode lets anybody execute the file: `mode & 0o111 != 0`.
pub open spec fn executable_mode(mode: u32) -> bool {
    mode & 0o111u32 != 0
}

/// Whether a Unix mode has an execute bit set, for owner, group or others.
pub fn is_executable(mode: u32) -> (r: bool)
    ensures
        r == executable_mode(mode),
        r == ((mode & 0o100u32) != 0 || (mode & 0o010u32) != 0 || (mode & 0o001u32) != 0),
{
    assert((mode & 0o111u32 != 0) == ((mode & 0o100u32) != 0 || (mode & 0o010u32) != 0 || (mode
        & 0o001u32) != 0)) by (bit_vector);
    mode & 0o111u32 != 0
}

/// A file system entry met while walking an asset directory.
#[derive(Debug, PartialEq)]
pub struct WalkedEntry {
    pub path: String,
    pub file_name: String,
    pub is_file: bool,
    pub mode: u32,
}

impl Clone for WalkedEntry {
    fn clone(&self) -> (r: Self)
        ensures
            r == *self,
    {
        WalkedEntry {
            path: self.path.clone(),
            file_name: self.file_name.clone(),
            is_file: self.is_file,
            mode: self.mode,
        }
    }
}

/// An entry is a binary: a file, without extension, that somebody may execute.
pub open spec fn is_binary(e: WalkedEntry) -> bool {
    e.is_file && !has_extension(e.file_name@) && executable_mode(e.mode)
}

/// The binaries among the entries of an asset directory, in walking order.
pub fn list_binaries(entries: &Vec<WalkedEntry>) -> (r: Vec<WalkedEntry>)
    ensures
        r@ == entries@.filter(|e: WalkedEntry| is_binary(e)),
{
    let ghost pred = |e: WalkedEntry| is_binary(e);
    let mut out: Vec<WalkedEntry> = Vec::new();
    let n = entries.len();
    let mut i: usize = 0;
    while i < n
        invariant
            n == entries@.len(),
            i <= n,
            pred == (|e: WalkedEntry| is_binary(e)),
            out@ == entries@.take(i as int).filter(pred),
        decreases n - i,
    {
        let e = &entries[i];
        let ghost prev = out@;
        if e.is_file && !file_has_extension(e.file_name.as_str()) && is_executable(e.mode) {
            out.push(e.clone());
        }
        proof {
            let t = entries@.take(i + 1);
            assert(t.drop_last() =~= entries@.take(i as int));
            assert(t.last() == entries@[i as int]);
            reveal_with_fuel(Seq::<_>::filter, 1);
            assert(t.filter(pred) == (if pred(t.last()) {
                t.drop_last().filter(pred).push(t.last())
            } else {
                t.drop_last().filter(pred)
            }));
            assert(pred(t.last()) == is_binary(entries@[i as int]));
            assert(out@ =~= t.filter(pred));
        }
        i += 1;
    }
    assert(entries@.take(n as int) =~= entries@);
    out
}

/// Whether a directory listing holds `Cargo.lock`, which marks the project root.
pub fn dir_has_lockfile(names: &Vec<String>) -> (r: bool)
    ensures
        r == exists|i: int| 0 <= i < names@.len() && names@[i]@ == "Cargo.lock"@,
{
    let n = names.len();
    let mut i: usize = 0;
    while i < n
        invariant
            n == names@.len(),
            i <= n,
            forall|j: int| 0 <= j < i ==> names@[j]@ != "Cargo.lock"@,
        decreases n - i,
    {
        if equal(names[i].as_str(), "Cargo.lock") {
            return true;
        }
        i += 1;
    }
    false
}

/// Each version of an asset has a directory of its own: for one project root and one
/// repository, different tags are unpacked into different directories.
pub proof fn lemma_tags_have_own_directories(
    root: Seq<char>,
    owner_repo: Seq<char>,
    tag1: Seq<char>,
    tag2: Seq<char>,
)
    requires
        tag1 != tag2,
    ensures
        path_joined(root, asset_relative_dir(owner_repo, tag1)) != path_joined(
            root,
            asset_relative_dir(owner_repo, tag2),
        ),
{
    reveal_strlit(".gha/");
    reveal_strlit("/");
    let r1 = asset_relative_dir(owner_repo, tag1);
    let r2 = asset_relative_dir(owner_repo, tag2);
    let head = ".gha/"@ + owner_repo + "/"@;
    assert(r1 =~= head + (tag1 + "/"@));
    assert(r2 =~= head + (tag2 + "/"@));
    assert(r1[0] == '.' && r2[0] == '.');
    let p1 = path_joined(root, r1);
    let p2 = path_joined(root, r2);
    if p1 == p2 {
        let base = if root.len() == 0 || root.last() == '/' {
            root
        } else {
            root + seq!['/']
        };
        assert(p1 =~= base + r1);
        assert(p2 =~= base + r2);
        assert(r1 =~= p1.skip(base.len() as int));
        assert(r2 =~= p2.skip(base.len() as int));
        assert(tag1 + "/"@ =~= r1.skip(head.len() as int));
        assert(tag2 + "/"@ =~= r2.skip(head.len() as int));
        assert(tag1 =~= (tag1 + "/"@).drop_last());
        assert(tag2 =~= (tag2 + "/"@).drop_last());
    }
}

/// Different assets have different directories: for one project root, two assets that
/// differ in repository or in tag are unpacked into different directories, where neither
/// tag holds a `/` (with one, `a/b` at `c/d` and `a/b/c` at `d` share a directory).
pub proof fn lemma_assets_have_own_directories(
    root: Seq<char>,
    owner_repo1: Seq<char>,
    tag1: Seq<char>,
    owner_repo2: Seq<char>,
    tag2: Seq<char>,
)
    requires
        owner_repo1 != owner_repo2 || tag1 != tag2,
        !tag1.contains('/'),
        !tag2.contains('/'),
    ensures
        path_joined(root, asset_relative_dir(owner_repo1, tag1)) != path_joined(
            root,
            asset_relative_dir(owner_repo2, tag2),
        ),
{
    reveal_strlit(".gha/");
    reveal_strlit("/");
    let r1 = asset_relative_dir(owner_repo1, tag1);
    let r2 = asset_relative_dir(owner_repo2, tag2);
    assert(r1[0] == '.' && r2[0] == '.');
    let p1 = path_joined(root, r1);
    let p2 = path_joined(root, r2);
    if p1 == p2 {
        let base = if root.len() == 0 || root.last() == '/' {
            root
        } else {
            root + seq!['/']
        };
        assert(p1 =~= base + r1);
        assert(p2 =~= base + r2);
        assert(r1 =~= p1.skip(base.len() as int));
        assert(r2 =~= p2.skip(base.len() as int));
        let s1 = owner_repo1 + "/"@ + tag1;
        let s2 = owner_repo2 + "/"@ + tag2;
        assert(s1 =~= r1.subrange(5, r1.len() - 1));
        assert(s2 =~= r2.subrange(5, r2.len() - 1));
        assert(s1 == s2);
        let n = s1.len();
        if tag1.len() < tag2.len() {
            let i = n - tag1.len() - 1;
            assert(s1[i] == '/');
            assert(s2[i] == tag2[i - (owner_repo2.len() + 1)]);
            assert(tag2.contains('/'));
        } else if tag2.len() < tag1.len() {
            let i = n - tag2.len() - 1;
            assert(s2[i] == '/');
            assert(s1[i] == tag1[i - (owner_repo1.len() + 1)]);
            assert(tag1.contains('/'));
        } else {
            assert(tag1 =~= s1.skip(n - tag1.len()));
            assert(tag2 =~= s2.skip(n - tag2.len()));
            assert(owner_repo1 =~= s1.take(owner_repo1.len() as int));
            assert(owner_repo2 =~= s2.take(owner_repo2.len() as int));
        }
    }
}

/// Whether an entry is a binary depends on its file name, kind and mode alone, never on
/// the directories in its path.
pub proof fn lemma_binary_ignores_directories(e1: WalkedEntry, e2: WalkedEntry)
    requires
        e1.file_name@ == e2.file_name@,
        e1.is_file == e2.is_file,
        e1.mode == e2.mode,
    ensures
        is_binary(e1) == is_binary(e2),
{
}

/// A file whose name holds no `.` after its first character, with an execute bit, is a
/// binary, whatever its path;
/// a file whose name has a `.` after its first character (the name `..` aside) is not,
/// and neither is an entry that is no file or that nobody may execute.
pub proof fn lemma_binary_by_name(e: WalkedEntry)
    ensures
        e.is_file && (forall|i: int| 0 < i < e.file_name@.len() ==> e.file_name@[i] != '.')
            && e.mode & 0o111u32 != 0 ==> is_binary(e),
        (exists|i: int| 0 < i < e.file_name@.len() && e.file_name@[i] == '.') && e.file_name@
            != seq!['.', '.'] ==> !is_binary(e),
        !e.is_file ==> !is_binary(e),
        e.mode & 0o111u32 == 0 ==> !is_binary(e),
{
}

} // verus!
