use sumpig::walk::should_ignore;

fn parents(path: &str) -> Vec<String> {
    if path.is_empty() {
        vec![]
    } else {
        path.split('/').map(|c| c.to_string()).collect()
    }
}

#[test]
fn ignores_default_directories() {
    for name in [
        "node_modules",
        ".venv",
        "target",
        "__pycache__",
        "build",
        "dist",
        ".build",
        ".zig-cache",
        ".ruff_cache",
        ".llm",
        ".playwright-mcp",
        "coverage",
        "_site",
        ".stfolder",
        ".sumpig-fingerprints",
    ] {
        assert!(should_ignore(name, true, &parents("")), "{name}");
    }
    // The same names as files are kept.
    assert!(!should_ignore("target", false, &parents("")));
    assert!(!should_ignore("keep", true, &parents("")));
}

#[test]
fn ignores_egg_info_directories() {
    assert!(should_ignore("mypackage.egg-info", true, &parents("src")));
    assert!(!should_ignore("mypackage.egg-info", false, &parents("src")));
}

#[test]
fn ignores_yarn_cache_but_not_yarn() {
    assert!(should_ignore("cache", true, &parents(".yarn")));
    assert!(should_ignore("cache", true, &parents("app/.yarn")));
    assert!(!should_ignore("cache", true, &parents("")));
    assert!(!should_ignore("cache", true, &parents(".yarn/x")));
    assert!(!should_ignore(".yarn", true, &parents("")));
    assert!(!should_ignore("releases", true, &parents(".yarn")));
}

#[test]
fn ignores_default_files() {
    for name in [".DS_Store", ".localized", ".apdisk", ".metadata_never_index"] {
        assert!(should_ignore(name, false, &parents("a")), "{name}");
    }
    assert!(!should_ignore(".DS_Store", true, &parents("a")));
}

#[test]
fn ignores_prefixes_and_suffixes() {
    assert!(should_ignore("._resource_fork", false, &parents("")));
    assert!(should_ignore("._Icon", false, &parents("")));
    assert!(should_ignore(".pnp.js", false, &parents("")));
    assert!(should_ignore(".pnp.cjs", false, &parents("")));
    assert!(should_ignore(".pnp.loader.mjs", false, &parents("")));
    assert!(should_ignore("file.txt~", false, &parents("")));
    assert!(should_ignore("Makefile~", false, &parents("")));
    assert!(!should_ignore("pnp.js", false, &parents("")));
    assert!(!should_ignore("keep.txt", false, &parents("")));
}

#[test]
fn ignores_extensions() {
    for name in ["data.nosync", "module.pyc", "m.pyo", "Helper.class", ".file.swp", "old.bak", "w.safetensors"] {
        assert!(should_ignore(name, false, &parents("")), "{name}");
    }
    // A name whose only dot is its first character has no extension.
    assert!(!should_ignore(".bak", false, &parents("")));
    assert!(!should_ignore("archive.tar.gz", false, &parents("")));
}

#[test]
fn ignores_lock_files_under_git() {
    assert!(should_ignore("index.lock", false, &parents(".git")));
    assert!(should_ignore("main.lock", false, &parents(".git/refs/heads")));
    assert!(!should_ignore("main", false, &parents(".git/refs/heads")));
    assert!(!should_ignore("HEAD", false, &parents(".git")));
    assert!(!should_ignore("Cargo.lock", false, &parents("")));
    assert!(!should_ignore("Cargo.lock", false, &parents("git")));
    // Directories named like lock files are kept.
    assert!(!should_ignore("x.lock", true, &parents(".git")));
}

#[test]
fn git_directories_are_kept_everywhere() {
    assert!(!should_ignore(".git", true, &parents("")));
    assert!(!should_ignore(".git", true, &parents("a/.yarn")));
    assert!(!should_ignore("objects", true, &parents(".git")));
}

#[test]
fn nosync_directory_is_ignored() {
    assert!(should_ignore("photos.nosync", true, &[]));
    assert!(should_ignore("cache.nosync", true, &["a".to_string(), "b".to_string()]));
    assert!(!should_ignore("photos", true, &[]));
    assert!(!should_ignore(".nosync", true, &[]));
    assert!(!should_ignore("backup.bak", true, &[]));
}
