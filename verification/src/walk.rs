//! The default ignore rules of a directory walk.
//!
//! An entry is named by its base name, whether it is a directory, and the path of its
//! parent directory below the walk root, given as components.

use vstd::prelude::*;
use crate::text::{chars_eq, chars_of, ends_with, ends_with_exec, starts_with, starts_with_exec};

verus! {

/// Directories to ignore (not hashed, not listed).
pub open spec fn ignore_dirs() -> Seq<Seq<char>> {
    seq![
        "node_modules"@, ".npm"@, ".eslintcache"@, ".next"@, ".nuxt"@,
        ".venv"@, "venv"@, "__pycache__"@, ".mypy_cache"@, ".pytest_cache"@, ".tox"@, ".ruff_cache"@,
        "target"@,
        ".build"@, ".swiftpm"@, "DerivedData"@,
        ".zig-cache"@, "zig-out"@,
        "build"@, ".gradle"@,
        ".playwright-mcp"@, "playwright-report"@, "test-results"@, "coverage"@,
        "_site"@,
        "dist"@,
        ".llm"@,
        ".Trash"@, ".Spotlight-V100"@, ".Trashes"@, ".fseventsd"@, ".TemporaryItems"@,
        ".stfolder"@, ".stversions"@,
        ".sumpig-fingerprints"@,
    ]
}

/// Directory name suffixes to ignore (e.g., ".egg-info" matches Python egg metadata).
pub open spec fn ignore_dir_suffixes() -> Seq<Seq<char>> {
    seq![".egg-info"@]
}

/// Directory name extensions to ignore (e.g., "nosync" matches `photos.nosync`, which
/// iCloud excludes from sync).
pub open spec fn ignore_dir_extensions() -> Seq<Seq<char>> {
    seq!["nosync"@]
}

/// Ignore a child directory when its immediate parent matches: (parent name, child name).
pub open spec fn ignore_child_dirs() -> Seq<(Seq<char>, Seq<char>)> {
    seq![(".yarn"@, "cache"@)]
}

/// Ignore files with a given extension when any ancestor directory matches:
/// (ancestor directory name, extension).
pub open spec fn ignore_extensions_under() -> Seq<(Seq<char>, Seq<char>)> {
    seq![(".git"@, "lock"@)]
}

/// Files to ignore.
pub open spec fn ignore_files() -> Seq<Seq<char>> {
    seq![".DS_Store"@, ".localized"@, ".apdisk"@, ".metadata_never_index"@]
}

/// File name prefixes to ignore (e.g., "._" matches macOS resource forks).
pub open spec fn ignore_file_prefixes() -> Seq<Seq<char>> {
    seq!["._"@, ".pnp."@]
}

/// File name suffixes to ignore (e.g., "~" matches editor backup files).
pub open spec fn ignore_file_suffixes() -> Seq<Seq<char>> {
    seq!["~"@]
}

/// File extensions to ignore.
pub open spec fn ignore_extensions() -> Seq<Seq<char>> {
    seq!["nosync"@, "pyc"@, "pyo"@, "class"@, "swp"@, "bak"@, "safetensors"@]
}

/// The index of the last `.` in a name, if it has one.
pub open spec fn last_dot(name: Seq<char>) -> Option<int>
    decreases name.len(),
{
    if name.len() == 0 {
        None
    } else if name.last() == '.' {
        Some(name.len() - 1)
    } else {
        last_dot(name.drop_last())
    }
}

/// The extension of a base name, as `Path::extension` reads it: the text after the last
/// `.`, unless the name has no `.` or its only `.` is its first character.
pub open spec fn name_extension(name: Seq<char>) -> Option<Seq<char>> {
    match last_dot(name) {
        Some(i) => if i == 0 {
            None
        } else {
            Some(name.skip(i + 1))
        },
        None => None,
    }
}

/// Whether some text of `list` is a suffix of `name`.
pub open spec fn ends_with_any(name: Seq<char>, list: Seq<Seq<char>>) -> bool {
    exists|k: int| 0 <= k < list.len() && ends_with(name, #[trigger] list[k])
}

/// Whether some text of `list` is a prefix of `name`.
pub open spec fn starts_with_any(name: Seq<char>, list: Seq<Seq<char>>) -> bool {
    exists|k: int| 0 <= k < list.len() && starts_with(name, #[trigger] list[k])
}

/// Whether the default ignore rules exclude an entry: a directory by its name, a suffix of
/// its name, its extension, or its name under a given parent; a file by its name, a prefix or suffix of
/// its name, its extension, or its extension under a given ancestor directory.
pub open spec fn ignored(name: Seq<char>, is_dir: bool, parent: Seq<Seq<char>>) -> bool {
    if is_dir {
        ||| ignore_dirs().contains(name)
        ||| ends_with_any(name, ignore_dir_suffixes())
        ||| match name_extension(name) {
            Some(ext) => ignore_dir_extensions().contains(ext),
            None => false,
        }
        ||| (parent.len() > 0 && exists|k: int|
            0 <= k < ignore_child_dirs().len() && #[trigger] ignore_child_dirs()[k] == (
                parent.last(),
                name,
            ))
    } else {
        ||| ignore_files().contains(name)
        ||| starts_with_any(name, ignore_file_prefixes())
        ||| ends_with_any(name, ignore_file_suffixes())
        ||| match name_extension(name) {
            Some(ext) => ignore_extensions().contains(ext) || exists|k: int|
                0 <= k < ignore_extensions_under().len() && (#[trigger] ignore_extensions_under()[k]).1
                    == ext && parent.contains(ignore_extensions_under()[k].0),
            None => false,
        }
    }
}

/// The texts of a list of string literals.
pub open spec fn str_views(s: Seq<&str>) -> Seq<Seq<char>> {
    s.map_values(|t: &str| t@)
}

/// The names of the directories to ignore.
fn dirs_list() -> (v: Vec<&'static str>)
    ensures
        str_views(v@) == ignore_dirs(),
{
    let mut v: Vec<&'static str> = Vec::new();
    v.push("node_modules");
    v.push(".npm");
    v.push(".eslintcache");
    v.push(".next");
    v.push(".nuxt");
    v.push(".venv");
    v.push("venv");
    v.push("__pycache__");
    v.push(".mypy_cache");
    v.push(".pytest_cache");
    v.push(".tox");
    v.push(".ruff_cache");
    v.push("target");
    v.push(".build");
    v.push(".swiftpm");
    v.push("DerivedData");
    v.push(".zig-cache");
    v.push("zig-out");
    v.push("build");
    v.push(".gradle");
    v.push(".playwright-mcp");
    v.push("playwright-report");
    v.push("test-results");
    v.push("coverage");
    v.push("_site");
    v.push("dist");
    v.push(".llm");
    v.push(".Trash");
    v.push(".Spotlight-V100");
    v.push(".Trashes");
    v.push(".fseventsd");
    v.push(".TemporaryItems");
    v.push(".stfolder");
    v.push(".stversions");
    v.push(".sumpig-fingerprints");
    assert(str_views(v@) =~= ignore_dirs());
    v
}

/// The names of the files to ignore.
fn files_list() -> (v: Vec<&'static str>)
    ensures
        str_views(v@) == ignore_files(),
{
    let mut v: Vec<&'static str> = Vec::new();
    v.push(".DS_Store");
    v.push(".localized");
    v.push(".apdisk");
    v.push(".metadata_never_index");
    assert(str_views(v@) =~= ignore_files());
    v
}

/// The file extensions to ignore.
fn extensions_list() -> (v: Vec<&'static str>)
    ensures
        str_views(v@) == ignore_extensions(),
{
    let mut v: Vec<&'static str> = Vec::new();
    v.push("nosync");
    v.push("pyc");
    v.push("pyo");
    v.push("class");
    v.push("swp");
    v.push("bak");
    v.push("safetensors");
    assert(str_views(v@) =~= ignore_extensions());
    v
}

/// Whether `name` is one of the texts of `list`.
fn is_one_of(name: &[char], list: &Vec<&str>) -> (r: bool)
    ensures
        r == str_views(list@).contains(name@),
{
    let ghost lv = str_views(list@);
    let mut k: usize = 0;
    while k < list.len()
        invariant
            k <= list@.len(),
            lv == str_views(list@),
            forall|j: int| 0 <= j < k ==> lv[j] != name@,
        decreases list@.len() - k,
    {
        let t = chars_of(list[k]);
        if chars_eq(name, t.as_slice()) {
            assert(lv[k as int] == name@);
            return true;
        }
        k = k + 1;
    }
    false
}

/// The position of the last `.` in a name.
fn last_dot_exec(name: &[char]) -> (r: Option<usize>)
    ensures
        match r {
            Some(j) => last_dot(name@) == Some(j as int) && j < name@.len(),
            None => last_dot(name@) is None,
        },
{
    let mut i: usize = name.len();
    assert(name@.take(i as int) =~= name@);
    while i > 0
        invariant
            i <= name@.len(),
            last_dot(name@) == last_dot(name@.take(i as int)),
        decreases i,
    {
        assert(name@.take(i as int).drop_last() =~= name@.take(i - 1));
        assert(name@.take(i as int).last() == name@[i - 1]);
        if name[i - 1] == '.' {
            return Some(i - 1);
        }
        i = i - 1;
    }
    None
}

/// The extension of a base name, as `Path::extension` reads it.
pub(crate) fn name_extension_exec(name: &[char]) -> (r: Option<Vec<char>>)
    ensures
        match name_extension(name@) {
            Some(ext) => r matches Some(v) && v@ == ext,
            None => r is None,
        },
{
    match last_dot_exec(name) {
        Some(i) => {
            if i == 0 {
                None
            } else {
                assert(i < name.len());
                let ext = crate::text::slice_copy(name, i + 1, name.len());
                assert(ext@ =~= name@.skip(i + 1));
                Some(ext)
            }
        },
        None => None,
    }
}

/// Returns true if the entry should be excluded by default ignore rules.
/// `name` is the file/directory basename, `is_dir` is whether it's a directory,
/// and `parent_components` are the components of the relative path from the root to the
/// parent directory.
pub fn should_ignore(name: &str, is_dir: bool, parent_components: &[String]) -> (r: bool)
    requires
        !name@.contains('/'),
    ensures
        r == ignored(name@, is_dir, parent_components@.map_values(|c: String| c@)),
{
    let ghost parent = parent_components@.map_values(|c: String| c@);
    let n = chars_of(name);
    if is_dir {
        let dirs = dirs_list();
        if is_one_of(n.as_slice(), &dirs) {
            return true;
        }
        let egg = chars_of(".egg-info");
        if ends_with_exec(n.as_slice(), egg.as_slice()) {
            assert(ignore_dir_suffixes()[0] == egg@);
            return true;
        }
        assert(!ends_with_any(name@, ignore_dir_suffixes())) by {
            assert forall|k: int| 0 <= k < ignore_dir_suffixes().len() implies !ends_with(
                name@,
                #[trigger] ignore_dir_suffixes()[k],
            ) by {
                assert(k == 0);
            }
        }
        match name_extension_exec(n.as_slice()) {
            Some(ext) => {
                let nosync = chars_of("nosync");
                if chars_eq(ext.as_slice(), nosync.as_slice()) {
                    assert(ignore_dir_extensions()[0] == ext@);
                    return true;
                }
                assert forall|k: int| 0 <= k < ignore_dir_extensions().len() implies
                    ignore_dir_extensions()[k] != ext@ by {
                    assert(k == 0);
                }
            },
            None => {},
        }
        if parent_components.len() > 0 {
            let last = chars_of(parent_components[parent_components.len() - 1].as_str());
            assert(last@ == parent.last());
            let yarn = chars_of(".yarn");
            let cache = chars_of("cache");
            if chars_eq(last.as_slice(), yarn.as_slice()) && chars_eq(n.as_slice(), cache.as_slice()) {
                assert(ignore_child_dirs()[0] == (parent.last(), name@));
                return true;
            }
            assert forall|k: int| 0 <= k < ignore_child_dirs().len() implies #[trigger] ignore_child_dirs()[k]
                != (parent.last(), name@) by {
                assert(k == 0);
            }
        }
        false
    } else {
        let files = files_list();
        if is_one_of(n.as_slice(), &files) {
            return true;
        }
        let p1 = chars_of("._");
        let p2 = chars_of(".pnp.");
        if starts_with_exec(n.as_slice(), p1.as_slice()) || starts_with_exec(n.as_slice(), p2.as_slice()) {
            assert(ignore_file_prefixes()[0] == p1@);
            assert(ignore_file_prefixes()[1] == p2@);
            return true;
        }
        assert forall|k: int| 0 <= k < ignore_file_prefixes().len() implies !starts_with(
            name@,
            #[trigger] ignore_file_prefixes()[k],
        ) by {
            assert(k == 0 || k == 1);
        }
        let tilde = chars_of("~");
        if ends_with_exec(n.as_slice(), tilde.as_slice()) {
            assert(ignore_file_suffixes()[0] == tilde@);
            return true;
        }
        assert forall|k: int| 0 <= k < ignore_file_suffixes().len() implies !ends_with(
            name@,
            #[trigger] ignore_file_suffixes()[k],
        ) by {
            assert(k == 0);
        }
        match name_extension_exec(n.as_slice()) {
            Some(ext) => {
                let exts = extensions_list();
                if is_one_of(ext.as_slice(), &exts) {
                    return true;
                }
                let lock = chars_of("lock");
                if chars_eq(ext.as_slice(), lock.as_slice()) {
                    let git = chars_of(".git");
                    let mut j: usize = 0;
                    while j < parent_components.len()
                        invariant
                            j <= parent_components@.len(),
                            parent == parent_components@.map_values(|c: String| c@),
                            git@ == ".git"@,
                            ext@ == "lock"@,
                            !is_dir,
                            name_extension(name@) == Some(ext@),
                            forall|x: int| 0 <= x < j ==> parent[x] != ".git"@,
                        decreases parent_components@.len() - j,
                    {
                        let c = chars_of(parent_components[j].as_str());
                        assert(c@ == parent[j as int]);
                        if chars_eq(c.as_slice(), git.as_slice()) {
                            assert(ignore_extensions_under()[0].1 == "lock"@);
                            assert(parent[j as int] == ignore_extensions_under()[0].0);
                            return true;
                        }
                        j = j + 1;
                    }
                    assert(!parent.contains(".git"@));
                }
                assert forall|k: int| 0 <= k < ignore_extensions_under().len() implies !((
                #[trigger] ignore_extensions_under()[k]).1 == ext@ && parent.contains(
                    ignore_extensions_under()[k].0,
                )) by {
                    assert(k == 0);
                }
                false
            },
            None => false,
        }
    }
}

/// `.git` directories are never ignored, wherever they are: detecting a damaged git
/// repository is what the walk is for.
pub proof fn lemma_git_directories_kept(parent: Seq<Seq<char>>)
    ensures
        !ignored(".git"@, true, parent),
{
    reveal_strlit(".git");
    reveal_strlit(".egg-info");
    reveal_strlit("cache");
    let g = ".git"@;
    assert(!ignore_dirs().contains(g)) by {
        assert forall|k: int| 0 <= k < ignore_dirs().len() implies ignore_dirs()[k] != g by {
            reveal_strlit("node_modules");
            reveal_strlit(".npm");
            reveal_strlit(".eslintcache");
            reveal_strlit(".next");
            reveal_strlit(".nuxt");
            reveal_strlit(".venv");
            reveal_strlit("venv");
            reveal_strlit("__pycache__");
            reveal_strlit(".mypy_cache");
            reveal_strlit(".pytest_cache");
            reveal_strlit(".tox");
            reveal_strlit(".ruff_cache");
            reveal_strlit("target");
            reveal_strlit(".build");
            reveal_strlit(".swiftpm");
            reveal_strlit("DerivedData");
            reveal_strlit(".zig-cache");
            reveal_strlit("zig-out");
            reveal_strlit("build");
            reveal_strlit(".gradle");
            reveal_strlit(".playwright-mcp");
            reveal_strlit("playwright-report");
            reveal_strlit("test-results");
            reveal_strlit("coverage");
            reveal_strlit("_site");
            reveal_strlit("dist");
            reveal_strlit(".llm");
            reveal_strlit(".Trash");
            reveal_strlit(".Spotlight-V100");
            reveal_strlit(".Trashes");
            reveal_strlit(".fseventsd");
            reveal_strlit(".TemporaryItems");
            reveal_strlit(".stfolder");
            reveal_strlit(".stversions");
            reveal_strlit(".sumpig-fingerprints");
            let d = ignore_dirs()[k];
            if d.len() == 4 {
                assert(d[1] != g[1] || d[2] != g[2] || d[3] != g[3]);
            }
        }
    }
    assert(!ends_with_any(g, ignore_dir_suffixes())) by {
        assert forall|k: int| 0 <= k < ignore_dir_suffixes().len() implies !ends_with(
            g,
            #[trigger] ignore_dir_suffixes()[k],
        ) by {
            assert(ignore_dir_suffixes()[k].len() > g.len());
        }
    }
    assert(name_extension(g) is None) by {
        let s1 = seq!['.'];
        let s2 = seq!['.', 'g'];
        let s3 = seq!['.', 'g', 'i'];
        assert(g =~= seq!['.', 'g', 'i', 't']);
        assert(s2.drop_last() =~= s1);
        assert(s3.drop_last() =~= s2);
        assert(g.drop_last() =~= s3);
        assert(last_dot(s1) == Some(0int));
        assert(last_dot(s2) == Some(0int));
        assert(last_dot(s3) == Some(0int));
        assert(last_dot(g) == Some(0int));
    }
    assert forall|k: int| 0 <= k < ignore_child_dirs().len() implies #[trigger] ignore_child_dirs()[k]
        != (parent.last(), g) by {
        assert(ignore_child_dirs()[k].1.len() == 5);
    }
}

/// A lock file is ignored below a `.git` directory at any depth: a file named
/// `<stem>.lock`, with a non-empty stem, is ignored whenever some directory on its parent
/// path, wherever it stands, is named `.git`.
pub proof fn lemma_lock_files_under_git_ignored(
    stem: Seq<char>,
    pre: Seq<Seq<char>>,
    post: Seq<Seq<char>>,
)
    requires
        stem.len() > 0,
    ensures
        ignored(stem + ".lock"@, false, pre + seq![".git"@] + post),
{
    reveal_strlit(".lock");
    reveal_strlit("lock");
    reveal_strlit(".git");
    let n = stem + ".lock"@;
    let n1 = n.drop_last();
    let n2 = n1.drop_last();
    let n3 = n2.drop_last();
    let n4 = n3.drop_last();
    assert(n4 =~= stem + seq!['.']);
    assert(n.last() == 'k' && n1.last() == 'c' && n2.last() == 'o' && n3.last() == 'l');
    assert(n4.last() == '.');
    assert(last_dot(n4) == Some(stem.len() as int));
    assert(last_dot(n3) == Some(stem.len() as int));
    assert(last_dot(n2) == Some(stem.len() as int));
    assert(last_dot(n1) == Some(stem.len() as int));
    assert(last_dot(n) == Some(stem.len() as int));
    assert(n.skip(stem.len() as int + 1) =~= "lock"@);
    assert(name_extension(n) == Some("lock"@));
    let parent = pre + seq![".git"@] + post;
    assert(parent[pre.len() as int] == ".git"@);
    assert(parent.contains(".git"@));
    assert(ignore_extensions_under()[0] == (".git"@, "lock"@));
}

} // verus!
