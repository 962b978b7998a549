//! Comparing two manifests, and the report of a comparison.
//!
//! Entries are matched by path; where a path occurs more than once in a manifest, its
//! last entry is the one matched. A directory with the same hash in both manifests has
//! the same contents in both, so everything below it is skipped.

use std::collections::HashMap;
use vstd::prelude::*;
use crate::manifest::{ManifestEntry, entry_views};
use crate::hash::hash_hex;
use crate::merkle::{
    EntryType, EntryView, InputModel, components_named, lemma_dir_listing_paths, manifest_listing,
    manifest_root,
};
use crate::order::{sort_strings, sorted_copy, texts_of};
use crate::text::{
    chars_of, decimal, matches_at, push_decimal, push_str, starts_with, starts_with_exec, string_of,
};

verus! {

broadcast use vstd::std_specs::hash::group_hash_axioms;

/// Result of comparing two manifests.
pub struct CompareResult {
    pub identical: bool,
    pub host1: String,
    pub host2: String,
    pub changed_dirs: Vec<ChangedEntry>,
    pub changed_files: Vec<ChangedEntry>,
    pub only_in_first: Vec<String>,
    pub only_in_second: Vec<String>,
    /// Paths of entries whose content was not read, each once.
    pub dataless_warnings: Vec<String>,
    /// Paths of entries that could not be read, each once.
    pub error_warnings: Vec<String>,
}

pub struct ChangedEntry {
    pub path: String,
    pub value1: String,
    pub value2: String,
}

/// A changed entry as values: its path and its values in the first and second manifest.
pub type ChangedView = (Seq<char>, Seq<char>, Seq<char>);

impl View for ChangedEntry {
    type V = ChangedView;

    open spec fn view(&self) -> ChangedView {
        (self.path@, self.value1@, self.value2@)
    }
}

/// The views of a sequence of changed entries.
pub open spec fn changed_views(s: Seq<ChangedEntry>) -> Seq<ChangedView> {
    s.map_values(|c: ChangedEntry| c@)
}

/// A comparison result as values.
#[verifier::ext_equal]
pub struct CompareModel {
    pub identical: bool,
    pub host1: Seq<char>,
    pub host2: Seq<char>,
    pub changed_dirs: Seq<ChangedView>,
    pub changed_files: Seq<ChangedView>,
    pub only_in_first: Seq<Seq<char>>,
    pub only_in_second: Seq<Seq<char>>,
    pub dataless_warnings: Seq<Seq<char>>,
    pub error_warnings: Seq<Seq<char>>,
}

impl View for CompareResult {
    type V = CompareModel;

    open spec fn view(&self) -> CompareModel {
        CompareModel {
            identical: self.identical,
            host1: self.host1@,
            host2: self.host2@,
            changed_dirs: changed_views(self.changed_dirs@),
            changed_files: changed_views(self.changed_files@),
            only_in_first: texts_of(self.only_in_first@),
            only_in_second: texts_of(self.only_in_second@),
            dataless_warnings: texts_of(self.dataless_warnings@),
            error_warnings: texts_of(self.error_warnings@),
        }
    }
}

/// The index of the last entry with path `p`, if there is one.
pub open spec fn last_index(es: Seq<EntryView>, p: Seq<char>) -> Option<int>
    decreases es.len(),
{
    if es.len() == 0 {
        None
    } else if es.last().2 == p {
        Some(es.len() - 1)
    } else {
        last_index(es.drop_last(), p)
    }
}

/// The last index is the position of the last entry with the path.
pub proof fn lemma_last_index(es: Seq<EntryView>, p: Seq<char>)
    ensures
        match last_index(es, p) {
            Some(i) => 0 <= i < es.len() && es[i].2 == p && forall|j: int|
                i < j < es.len() ==> es[j].2 != p,
            None => forall|j: int| 0 <= j < es.len() ==> es[j].2 != p,
        },
    decreases es.len(),
{
    if es.len() > 0 {
        lemma_last_index(es.drop_last(), p);
        assert forall|j: int| 0 <= j < es.len() - 1 implies es[j] == es.drop_last()[j] by {}
    }
}

/// The entry a manifest gives for path `p`: its last entry with that path.
pub open spec fn lookup(es: Seq<EntryView>, p: Seq<char>) -> Option<EntryView> {
    match last_index(es, p) {
        Some(i) => Some(es[i]),
        None => None,
    }
}

/// Whether entry `i` of the first manifest is a directory whose hash the second manifest
/// gives its same path too.
pub open spec fn same_dir(e1: Seq<EntryView>, e2: Seq<EntryView>, i: int) -> bool {
    &&& e1[i].0 == EntryType::Dir
    &&& match lookup(e2, e1[i].2) {
        Some(x) => x.0 == EntryType::Dir && x.1 == e1[i].1,
        None => false,
    }
}

/// Whether path `p` lies strictly below a directory that is the same in both manifests.
pub open spec fn is_skipped(e1: Seq<EntryView>, e2: Seq<EntryView>, p: Seq<char>) -> bool {
    exists|i: int| 0 <= i < e1.len() && #[trigger] same_dir(e1, e2, i) && strictly_below(p, e1[i].2)
}

/// The path of an entry if it is of kind `t`, else nothing.
pub open spec fn path_if(e: EntryView, t: EntryType) -> Seq<Seq<char>> {
    if e.0 == t {
        seq![e.2]
    } else {
        Seq::empty()
    }
}

/// Whether entry `i` of the first manifest lies outside every skipped subtree and the
/// second manifest gives its path another value or kind.
pub open spec fn differs_at(e1: Seq<EntryView>, e2: Seq<EntryView>, i: int) -> bool {
    &&& !is_skipped(e1, e2, e1[i].2)
    &&& match lookup(e2, e1[i].2) {
        Some(x) => e1[i].1 != x.1 || e1[i].0 != x.0,
        None => false,
    }
}

/// The change that entry `i` of the first manifest is reported as.
pub open spec fn change_at(e1: Seq<EntryView>, e2: Seq<EntryView>, i: int) -> ChangedView {
    match lookup(e2, e1[i].2) {
        Some(x) => (e1[i].2, e1[i].1, x.1),
        None => (e1[i].2, e1[i].1, Seq::empty()),
    }
}

/// Whether the change at entry `i` concerns a directory on either side.
pub open spec fn dir_change_at(e1: Seq<EntryView>, e2: Seq<EntryView>, i: int) -> bool {
    e1[i].0 == EntryType::Dir || match lookup(e2, e1[i].2) {
        Some(x) => x.0 == EntryType::Dir,
        None => false,
    }
}

/// Whether entry `i` of `a` lies outside every skipped subtree and `b` lacks its path.
pub open spec fn missing_at(
    e1: Seq<EntryView>,
    e2: Seq<EntryView>,
    a: Seq<EntryView>,
    b: Seq<EntryView>,
    i: int,
) -> bool {
    !is_skipped(e1, e2, a[i].2) && last_index(b, a[i].2) is None
}

/// The changes of the first `n` entries of the first manifest that differ, in order:
/// those that concern a directory when `dirs` holds, the others when it does not.
pub open spec fn changes_upto(e1: Seq<EntryView>, e2: Seq<EntryView>, n: nat, dirs: bool) -> Seq<
    ChangedView,
>
    decreases n,
{
    if n == 0 {
        Seq::empty()
    } else {
        let prev = changes_upto(e1, e2, (n - 1) as nat, dirs);
        if differs_at(e1, e2, n - 1) && dir_change_at(e1, e2, n - 1) == dirs {
            prev.push(change_at(e1, e2, n - 1))
        } else {
            prev
        }
    }
}

/// The paths of the first `n` entries of `a` that lie outside every skipped subtree and
/// that `b` lacks, in order.
pub open spec fn missing_upto(
    e1: Seq<EntryView>,
    e2: Seq<EntryView>,
    a: Seq<EntryView>,
    b: Seq<EntryView>,
    n: nat,
) -> Seq<Seq<char>>
    decreases n,
{
    if n == 0 {
        Seq::empty()
    } else {
        let prev = missing_upto(e1, e2, a, b, (n - 1) as nat);
        if missing_at(e1, e2, a, b, n - 1) {
            prev.push(a[n - 1].2)
        } else {
            prev
        }
    }
}

/// The paths the walk over the first `n` entries of the first manifest warns about as
/// being of kind `t`, in the order met (with repeats): for each entry outside every
/// skipped subtree, its own path if it is of kind `t`, then the path of the entry the
/// second manifest gives its path if that one is of kind `t`.
pub open spec fn warnings_first(e1: Seq<EntryView>, e2: Seq<EntryView>, n: nat, t: EntryType) -> Seq<
    Seq<char>,
>
    decreases n,
{
    if n == 0 {
        Seq::empty()
    } else {
        let prev = warnings_first(e1, e2, (n - 1) as nat, t);
        let e = e1[n - 1];
        if is_skipped(e1, e2, e.2) {
            prev
        } else {
            match lookup(e2, e.2) {
                Some(x) => prev + path_if(e, t) + path_if(x, t),
                None => prev + path_if(e, t),
            }
        }
    }
}

/// The paths the walk over the first `n` entries of the second manifest warns about as
/// being of kind `t`: those of its entries of that kind that are on its side only.
pub open spec fn warnings_second(e1: Seq<EntryView>, e2: Seq<EntryView>, n: nat, t: EntryType) -> Seq<
    Seq<char>,
>
    decreases n,
{
    if n == 0 {
        Seq::empty()
    } else {
        let prev = warnings_second(e1, e2, (n - 1) as nat, t);
        if missing_at(e1, e2, e2, e1, n - 1) {
            prev + path_if(e2[n - 1], t)
        } else {
            prev
        }
    }
}

/// The items of `s` in the order of their first occurrence, each once.
pub open spec fn dedup(s: Seq<Seq<char>>) -> Seq<Seq<char>>
    decreases s.len(),
{
    if s.len() == 0 {
        Seq::empty()
    } else {
        let d = dedup(s.drop_last());
        if d.contains(s.last()) {
            d
        } else {
            d.push(s.last())
        }
    }
}

/// The comparison of two manifests' entries: the changed directories and files, in the
/// order of the first manifest, are its entries outside every skipped subtree whose path
/// the second manifest gives another value or kind; the paths on one side only are those
/// of the entries of that side outside every skipped subtree that the other side lacks;
/// the warnings list each warned path once, in the order first met.
pub open spec fn compare_spec(
    e1: Seq<EntryView>,
    e2: Seq<EntryView>,
    host1: Seq<char>,
    host2: Seq<char>,
) -> CompareModel {
    let dirs = changes_upto(e1, e2, e1.len(), true);
    let files = changes_upto(e1, e2, e1.len(), false);
    let only1 = missing_upto(e1, e2, e1, e2, e1.len());
    let only2 = missing_upto(e1, e2, e2, e1, e2.len());
    CompareModel {
        identical: dirs.len() == 0 && files.len() == 0 && only1.len() == 0 && only2.len() == 0,
        host1,
        host2,
        changed_dirs: dirs,
        changed_files: files,
        only_in_first: only1,
        only_in_second: only2,
        dataless_warnings: dedup(
            warnings_first(e1, e2, e1.len(), EntryType::Dataless) + warnings_second(
                e1,
                e2,
                e2.len(),
                EntryType::Dataless,
            ),
        ),
        error_warnings: dedup(
            warnings_first(e1, e2, e1.len(), EntryType::Error) + warnings_second(
                e1,
                e2,
                e2.len(),
                EntryType::Error,
            ),
        ),
    }
}

/// The modulus of the path hash: the largest prime below 2^32.
pub open spec fn hash_modulus() -> int {
    4294967291
}

/// The polynomial hash of a text by which the path index files entries.
pub open spec fn text_hash(s: Seq<char>) -> u64
    decreases s.len(),
{
    if s.len() == 0 {
        0
    } else {
        ((text_hash(s.drop_last()) as int * 31 + (s.last() as u32) as int) % hash_modulus()) as u64
    }
}

/// The path hash lies below its modulus.
proof fn lemma_text_hash_bound(s: Seq<char>)
    ensures
        text_hash(s) < hash_modulus(),
    decreases s.len(),
{
    if s.len() > 0 {
        lemma_text_hash_bound(s.drop_last());
    }
}

/// The path hash of a string.
fn text_hash_exec(s: &String) -> (h: u64)
    ensures
        h == text_hash(s@),
{
    let cs = chars_of(s.as_str());
    let mut h: u64 = 0;
    let mut i: usize = 0;
    assert(cs@.take(0) =~= Seq::<char>::empty());
    while i < cs.len()
        invariant
            i <= cs@.len(),
            cs@ == s@,
            h == text_hash(cs@.take(i as int)),
            h < 4294967291,
        decreases cs@.len() - i,
    {
        assert(cs@.take(i + 1).drop_last() =~= cs@.take(i as int));
        assert(cs@.take(i + 1).last() == cs@[i as int]);
        let c: u64 = cs[i] as u32 as u64;
        proof {
            lemma_text_hash_bound(cs@.take(i + 1));
        }
        h = (h * 31 + c) % 4294967291;
        i = i + 1;
    }
    assert(cs@.take(cs@.len() as int) =~= cs@);
    h
}

/// Whether a bucket lists, in increasing order, positions below `n` of entries whose
/// path hash is `k`.
pub open spec fn bucket_ok(b: Seq<usize>, ev: Seq<EntryView>, n: int, k: u64) -> bool {
    &&& forall|x: int| 0 <= x < b.len() ==> #[trigger] b[x] < n && text_hash(ev[b[x] as int].2) == k
    &&& forall|x: int, y: int| 0 <= x < y < b.len() ==> #[trigger] b[x] < #[trigger] b[y]
}

/// Whether `m` indexes the first `n` entries of `ev` by path hash: each bucket lists, in
/// increasing order, exactly the positions of the entries with that hash.
pub open spec fn index_ok(m: Map<u64, Vec<usize>>, ev: Seq<EntryView>, n: int) -> bool {
    &&& forall|k: u64| #[trigger] m.contains_key(k) ==> bucket_ok(m[k]@, ev, n, k)
    &&& forall|i: int|
        0 <= i < n ==> m.contains_key(#[trigger] text_hash(ev[i].2)) && m[text_hash(
            ev[i].2,
        )]@.contains(i as usize)
}

/// The entries of a manifest filed by the hash of their paths.
struct PathIndex {
    buckets: HashMap<u64, Vec<usize>>,
}

impl PathIndex {
    /// Files every entry of `es`.
    fn new(es: &[ManifestEntry]) -> (r: PathIndex)
        ensures
            index_ok(r.buckets@, entry_views(es@), es@.len() as int),
    {
        let ghost ev = entry_views(es@);
        let mut m: HashMap<u64, Vec<usize>> = HashMap::new();
        let mut i: usize = 0;
        while i < es.len()
            invariant
                i <= es@.len(),
                ev == entry_views(es@),
                index_ok(m@, ev, i as int),
            decreases es@.len() - i,
        {
            let k = text_hash_exec(&es[i].path);
            assert(ev[i as int].2 == es@[i as int].path@);
            let ghost old_m = m@;
            let ghost nb: Seq<usize>;
            match m.remove(&k) {
                Some(mut v) => {
                    let ghost before = v@;
                    v.push(i);
                    proof {
                        nb = v@;
                        assert(bucket_ok(before, ev, i as int, k));
                        assert forall|x: int| 0 <= x < nb.len() implies #[trigger] nb[x] < i + 1
                            && text_hash(ev[nb[x] as int].2) == k by {
                            if x < before.len() {
                                assert(nb[x] == before[x]);
                            }
                        }
                        assert forall|x: int, y: int| 0 <= x < y < nb.len() implies #[trigger] nb[x]
                            < #[trigger] nb[y] by {
                            if y < before.len() {
                                assert(nb[x] == before[x] && nb[y] == before[y]);
                            } else {
                                assert(nb[x] == before[x]);
                            }
                        }
                    }
                    m.insert(k, v);
                },
                None => {
                    let mut v: Vec<usize> = Vec::new();
                    v.push(i);
                    proof {
                        nb = v@;
                    }
                    m.insert(k, v);
                },
            }
            proof {
                assert(m@ == old_m.insert(k, m@[k]));
                assert(m@[k]@ == nb);
                assert forall|kk: u64| #[trigger] m@.contains_key(kk) implies bucket_ok(
                    m@[kk]@,
                    ev,
                    i + 1,
                    kk,
                ) by {
                    if kk != k {
                        assert(bucket_ok(old_m[kk]@, ev, i as int, kk));
                    }
                }
                assert forall|j: int| 0 <= j < i + 1 implies m@.contains_key(
                    #[trigger] text_hash(ev[j].2),
                ) && m@[text_hash(ev[j].2)]@.contains(j as usize) by {
                    if j < i {
                        let kj = text_hash(ev[j].2);
                        assert(old_m.contains_key(kj) && old_m[kj]@.contains(j as usize));
                        if kj == k {
                            let x = choose|x: int| 0 <= x < old_m[kj]@.len() && old_m[kj]@[x] == j as usize;
                            assert(nb[x] == j as usize);
                        }
                    } else {
                        assert(nb[nb.len() - 1] == i);
                    }
                }
            }
            i = i + 1;
        }
        PathIndex { buckets: m }
    }

    /// The position of the last entry of `es` with path `p`.
    fn last_index(&self, es: &[ManifestEntry], p: &String) -> (r: Option<usize>)
        requires
            index_ok(self.buckets@, entry_views(es@), es@.len() as int),
        ensures
            match r {
                Some(j) => last_index(entry_views(es@), p@) == Some(j as int) && j < es@.len()
                    && es@[j as int]@ == entry_views(es@)[j as int],
                None => last_index(entry_views(es@), p@) is None,
            },
    {
        let ghost ev = entry_views(es@);
        let k = text_hash_exec(p);
        proof {
            lemma_last_index(ev, p@);
        }
        match self.buckets.get(&k) {
            None => {
                proof {
                    assert forall|j: int| 0 <= j < ev.len() implies ev[j].2 != p@ by {
                        if ev[j].2 == p@ {
                            assert(self.buckets@.contains_key(text_hash(ev[j].2)));
                        }
                    }
                    lemma_last_index_none(ev, p@);
                }
                None
            },
            Some(b) => {
                assert(self.buckets@.contains_key(k) && self.buckets@[k] == *b);
                assert(bucket_ok(b@, ev, es@.len() as int, k));
                let mut x: usize = b.len();
                while x > 0
                    invariant
                        x <= b@.len(),
                        bucket_ok(b@, ev, es@.len() as int, k),
                        self.buckets@.contains_key(k),
                        self.buckets@[k]@ == b@,
                        index_ok(self.buckets@, ev, es@.len() as int),
                        ev == entry_views(es@),
                        k == text_hash(p@),
                        forall|y: int| x <= y < b@.len() ==> ev[#[trigger] b@[y] as int].2 != p@,
                    decreases x,
                {
                    x = x - 1;
                    let j = b[x];
                    assert(ev[j as int] == es@[j as int]@);
                    if es[j].path == *p {
                        proof {
                            assert forall|jj: int| j < jj < ev.len() implies ev[jj].2 != p@ by {
                                if ev[jj].2 == p@ {
                                    assert(self.buckets@[k]@.contains(jj as usize));
                                    let y = choose|y: int| 0 <= y < b@.len() && b@[y] == jj as usize;
                                    if y <= x {
                                        if y < x {
                                            assert(b@[y] < b@[x as int]);
                                        }
                                    }
                                }
                            }
                            lemma_last_index_is(ev, p@, j as int);
                        }
                        return Some(j);
                    }
                }
                proof {
                    assert forall|j: int| 0 <= j < ev.len() implies ev[j].2 != p@ by {
                        if ev[j].2 == p@ {
                            assert(j < es.len());
                            assert(text_hash(ev[j].2) == k);
                            assert(self.buckets@[k]@.contains(j as usize));
                            let y = choose|y: int| 0 <= y < b@.len() && b@[y] == j as usize;
                            assert(ev[b@[y] as int].2 != p@);
                        }
                    }
                    lemma_last_index_none(ev, p@);
                }
                None
            },
        }
    }
}

/// A path no entry has has no last entry.
proof fn lemma_last_index_none(es: Seq<EntryView>, p: Seq<char>)
    requires
        forall|j: int| 0 <= j < es.len() ==> es[j].2 != p,
    ensures
        last_index(es, p) is None,
{
    lemma_last_index(es, p);
}

/// The entry with path `p` after which no entry has that path is the last one.
proof fn lemma_last_index_is(es: Seq<EntryView>, p: Seq<char>, i: int)
    requires
        0 <= i < es.len(),
        es[i].2 == p,
        forall|j: int| i < j < es.len() ==> es[j].2 != p,
    ensures
        last_index(es, p) == Some(i),
{
    lemma_last_index(es, p);
    match last_index(es, p) {
        Some(j) => {
            if j < i {
                assert(es[i].2 != p);
            }
        },
        None => {},
    }
}

/// Whether entry `i` of the first manifest is a directory that is the same in the second.
fn same_dir_exec(e1: &[ManifestEntry], e2: &[ManifestEntry], index2: &PathIndex, i: usize) -> (r: bool)
    requires
        i < e1@.len(),
        index_ok(index2.buckets@, entry_views(e2@), e2@.len() as int),
    ensures
        r == same_dir(entry_views(e1@), entry_views(e2@), i as int),
{
    let ghost v1 = entry_views(e1@);
    let ghost v2 = entry_views(e2@);
    let e = &e1[i];
    assert(v1[i as int] == e@);
    if e.entry_type == EntryType::Dir {
        match index2.last_index(e2, &e.path) {
            Some(j) => {
                assert(lookup(v2, v1[i as int].2) == Some(v2[j as int]));
                e2[j].entry_type == EntryType::Dir && e2[j].value == e.value
            },
            None => false,
        }
    } else {
        false
    }
}

/// The paths of the first `n` entries of the first manifest that are directories that are
/// the same in the second, in order.
pub open spec fn same_dir_list(e1: Seq<EntryView>, e2: Seq<EntryView>, n: nat) -> Seq<Seq<char>>
    decreases n,
{
    if n == 0 {
        Seq::empty()
    } else {
        let prev = same_dir_list(e1, e2, (n - 1) as nat);
        if same_dir(e1, e2, n - 1) {
            prev.push(e1[n - 1].2)
        } else {
            prev
        }
    }
}

/// Whether path `p` lies strictly below path `q`.
pub open spec fn strictly_below(p: Seq<char>, q: Seq<char>) -> bool {
    p != q && starts_with(p, q)
}

/// A path is below one of the listed directories exactly when it is below one of the
/// first `n` entries that are the same directory in both manifests.
proof fn lemma_same_dir_list(e1: Seq<EntryView>, e2: Seq<EntryView>, n: nat, p: Seq<char>)
    requires
        n <= e1.len(),
    ensures
        (exists|k: int|
            0 <= k < same_dir_list(e1, e2, n).len() && strictly_below(
                p,
                #[trigger] same_dir_list(e1, e2, n)[k],
            )) <==> (exists|i: int|
            0 <= i < n && #[trigger] same_dir(e1, e2, i) && strictly_below(p, e1[i].2)),
    decreases n,
{
    if n > 0 {
        lemma_same_dir_list(e1, e2, (n - 1) as nat, p);
        let prev = same_dir_list(e1, e2, (n - 1) as nat);
        let l = same_dir_list(e1, e2, n);
        if exists|k: int| 0 <= k < l.len() && strictly_below(p, #[trigger] l[k]) {
            let k = choose|k: int| 0 <= k < l.len() && strictly_below(p, #[trigger] l[k]);
            if k < prev.len() {
                assert(l[k] == prev[k]);
            } else {
                assert(same_dir(e1, e2, n - 1) && strictly_below(p, e1[n - 1].2));
            }
        }
        if exists|i: int| 0 <= i < n && #[trigger] same_dir(e1, e2, i) && strictly_below(p, e1[i].2) {
            let i = choose|i: int|
                0 <= i < n && #[trigger] same_dir(e1, e2, i) && strictly_below(p, e1[i].2);
            if i < n - 1 {
                let k = choose|k: int| 0 <= k < prev.len() && strictly_below(p, #[trigger] prev[k]);
                assert(l[k] == prev[k]);
            } else {
                assert(l[prev.len() as int] == e1[i].2);
            }
        }
    }
}

/// The views of a sequence of character vectors.
pub open spec fn char_vec_views(ls: Seq<Vec<char>>) -> Seq<Seq<char>> {
    ls.map_values(|l: Vec<char>| l@)
}

/// The paths of the directories of the first manifest that are the same in the second.
fn same_dir_paths(e1: &[ManifestEntry], e2: &[ManifestEntry], index2: &PathIndex) -> (v: Vec<
    Vec<char>,
>)
    requires
        index_ok(index2.buckets@, entry_views(e2@), e2@.len() as int),
    ensures
        char_vec_views(v@) == same_dir_list(entry_views(e1@), entry_views(e2@), e1@.len()),
{
    let ghost v1 = entry_views(e1@);
    let ghost v2 = entry_views(e2@);
    let mut v: Vec<Vec<char>> = Vec::new();
    let mut i: usize = 0;
    assert(char_vec_views(v@) =~= Seq::<Seq<char>>::empty());
    while i < e1.len()
        invariant
            i <= e1@.len(),
            v1 == entry_views(e1@),
            v2 == entry_views(e2@),
            index_ok(index2.buckets@, v2, e2@.len() as int),
            char_vec_views(v@) == same_dir_list(v1, v2, i as nat),
        decreases e1@.len() - i,
    {
        let ghost old_v = char_vec_views(v@);
        if same_dir_exec(e1, e2, index2, i) {
            let c = chars_of(e1[i].path.as_str());
            assert(c@ == v1[i as int].2);
            v.push(c);
            assert(char_vec_views(v@) =~= old_v.push(v1[i as int].2));
        }
        i = i + 1;
    }
    v
}

/// Whether a path lies strictly below one of the given directory paths.
fn below_any(prefixes: &Vec<Vec<char>>, p: &[char]) -> (r: bool)
    ensures
        r == exists|k: int|
            0 <= k < prefixes@.len() && strictly_below(p@, #[trigger] char_vec_views(prefixes@)[k]),
{
    let ghost pv = char_vec_views(prefixes@);
    let mut k: usize = 0;
    while k < prefixes.len()
        invariant
            k <= prefixes@.len(),
            pv == char_vec_views(prefixes@),
            forall|j: int| 0 <= j < k ==> !strictly_below(p@, #[trigger] pv[j]),
        decreases prefixes@.len() - k,
    {
        let q = prefixes[k].as_slice();
        assert(pv[k as int] == q@);
        if !crate::text::chars_eq(p, q) && starts_with_exec(p, q) {
            return true;
        }
        k = k + 1;
    }
    false
}

/// Whether path `p` lies below a directory that is the same in both manifests.
fn skipped_exec(
    prefixes: &Vec<Vec<char>>,
    e1: &[ManifestEntry],
    e2: &[ManifestEntry],
    p: &String,
) -> (r: bool)
    requires
        char_vec_views(prefixes@) == same_dir_list(entry_views(e1@), entry_views(e2@), e1@.len()),
    ensures
        r == is_skipped(entry_views(e1@), entry_views(e2@), p@),
{
    let pc = chars_of(p.as_str());
    proof {
        lemma_same_dir_list(entry_views(e1@), entry_views(e2@), e1@.len(), p@);
    }
    below_any(prefixes, pc.as_slice())
}

/// Appends the entry's path if the entry is of kind `t`.
fn push_path_if(v: &mut Vec<String>, e: &ManifestEntry, t: EntryType)
    ensures
        texts_of(final(v)@) == texts_of(old(v)@) + path_if(e@, t),
{
    let ghost before = texts_of(v@);
    if e.entry_type == t {
        v.push(e.path.clone());
        assert(texts_of(v@) =~= before + path_if(e@, t));
    } else {
        assert(texts_of(v@) =~= before + path_if(e@, t));
    }
}

/// Whether `m` indexes the texts `ts` by hash: each bucket lists positions of texts with
/// that hash, and every position is listed under the hash of its text.
pub open spec fn text_index_ok(m: Map<u64, Vec<usize>>, ts: Seq<Seq<char>>) -> bool {
    &&& forall|k: u64|
        #[trigger] m.contains_key(k) ==> forall|x: int|
            0 <= x < m[k]@.len() ==> #[trigger] m[k]@[x] < ts.len() && text_hash(
                ts[m[k]@[x] as int],
            ) == k
    &&& forall|j: int|
        0 <= j < ts.len() ==> m.contains_key(#[trigger] text_hash(ts[j])) && m[text_hash(
            ts[j],
        )]@.contains(j as usize)
}

/// The strings in the order of their first occurrence, each once.
fn dedup_exec(v: &Vec<String>) -> (r: Vec<String>)
    ensures
        texts_of(r@) == dedup(texts_of(v@)),
{
    let ghost sv = texts_of(v@);
    let mut r: Vec<String> = Vec::new();
    let mut seen: HashMap<u64, Vec<usize>> = HashMap::new();
    let mut i: usize = 0;
    assert(sv.take(0) =~= Seq::<Seq<char>>::empty());
    while i < v.len()
        invariant
            i <= v@.len(),
            sv == texts_of(v@),
            texts_of(r@) == dedup(sv.take(i as int)),
            text_index_ok(seen@, texts_of(r@)),
            r@.len() <= i,
        decreases v@.len() - i,
    {
        let ghost d = texts_of(r@);
        let ghost t = v@[i as int]@;
        assert(sv.take(i + 1).drop_last() =~= sv.take(i as int));
        assert(sv.take(i + 1).last() == t);
        let k = text_hash_exec(&v[i]);
        let mut found = false;
        match seen.get(&k) {
            Some(b) => {
                assert(seen@.contains_key(k) && seen@[k] == *b);
                let mut x: usize = 0;
                while x < b.len()
                    invariant
                        x <= b@.len(),
                        seen@.contains_key(k),
                        seen@[k]@ == b@,
                        text_index_ok(seen@, d),
                        d == texts_of(r@),
                        t == v@[i as int]@,
                        i < v@.len(),
                        !found ==> forall|y: int| 0 <= y < x ==> d[#[trigger] b@[y] as int] != t,
                        found ==> d.contains(t),
                    decreases b@.len() - x,
                {
                    let j = b[x];
                    assert(j < d.len());
                    if r[j] == v[i] {
                        found = true;
                        assert(d[j as int] == t);
                    }
                    x = x + 1;
                }
                proof {
                    if !found && d.contains(t) {
                        let j = choose|j: int| 0 <= j < d.len() && d[j] == t;
                        assert(seen@[text_hash(d[j])]@.contains(j as usize));
                        let y = choose|y: int| 0 <= y < b@.len() && b@[y] == j as usize;
                        assert(d[b@[y] as int] != t);
                    }
                }
            },
            None => {
                proof {
                    if d.contains(t) {
                        let j = choose|j: int| 0 <= j < d.len() && d[j] == t;
                        assert(seen@.contains_key(text_hash(d[j])));
                    }
                }
            },
        }
        assert(found == d.contains(t));
        if !found {
            let n = r.len();
            r.push(v[i].clone());
            assert(texts_of(r@) =~= d.push(t));
            let ghost old_m = seen@;
            let ghost nb: Seq<usize>;
            match seen.remove(&k) {
                Some(mut b) => {
                    b.push(n);
                    proof {
                        nb = b@;
                    }
                    seen.insert(k, b);
                },
                None => {
                    let mut b: Vec<usize> = Vec::new();
                    b.push(n);
                    proof {
                        nb = b@;
                    }
                    seen.insert(k, b);
                },
            }
            proof {
                let d2 = texts_of(r@);
                assert(seen@ == old_m.insert(k, seen@[k]));
                assert(seen@[k]@ == nb);
                assert(d2[n as int] == t);
                assert forall|kk: u64| #[trigger] seen@.contains_key(kk) implies forall|x: int|
                    0 <= x < seen@[kk]@.len() ==> #[trigger] seen@[kk]@[x] < d2.len() && text_hash(
                        d2[seen@[kk]@[x] as int],
                    ) == kk by {
                    assert forall|x: int| 0 <= x < seen@[kk]@.len() implies #[trigger] seen@[kk]@[x]
                        < d2.len() && text_hash(d2[seen@[kk]@[x] as int]) == kk by {
                        if kk != k || (old_m.contains_key(k) && x < old_m[k]@.len()) {
                            if kk == k {
                                assert(seen@[kk]@[x] == old_m[k]@[x]);
                            }
                            let j = old_m[kk]@[x];
                            assert(d2[j as int] == d[j as int]);
                        }
                    }
                }
                assert forall|j: int| 0 <= j < d2.len() implies seen@.contains_key(
                    #[trigger] text_hash(d2[j]),
                ) && seen@[text_hash(d2[j])]@.contains(j as usize) by {
                    if j < d.len() {
                        assert(d2[j] == d[j]);
                        let kj = text_hash(d[j]);
                        if kj == k {
                            let y = choose|y: int| 0 <= y < old_m[kj]@.len() && old_m[kj]@[y] == j as usize;
                            assert(nb[y] == j as usize);
                        }
                    } else {
                        assert(nb[nb.len() - 1] == n);
                    }
                }
            }
        }
        i = i + 1;
    }
    assert(sv.take(v@.len() as int) =~= sv);
    r
}

/// Compare two sets of manifest entries using the Merkle tree property.
/// When a directory hash matches in both manifests, all children are skipped.
pub fn compare_manifests(
    entries1: &[ManifestEntry],
    entries2: &[ManifestEntry],
    host1: &str,
    host2: &str,
) -> (r: CompareResult)
    ensures
        r@ == compare_spec(entry_views(entries1@), entry_views(entries2@), host1@, host2@),
{
    let ghost v1 = entry_views(entries1@);
    let ghost v2 = entry_views(entries2@);
    let index1 = PathIndex::new(entries1);
    let index2 = PathIndex::new(entries2);
    let prefixes = same_dir_paths(entries1, entries2, &index2);
    let mut changed_dirs: Vec<ChangedEntry> = Vec::new();
    let mut changed_files: Vec<ChangedEntry> = Vec::new();
    let mut only_in_first: Vec<String> = Vec::new();
    let mut only_in_second: Vec<String> = Vec::new();
    let mut dataless: Vec<String> = Vec::new();
    let mut errors: Vec<String> = Vec::new();
    assert(changed_views(changed_dirs@) =~= Seq::<ChangedView>::empty());
    assert(changed_views(changed_files@) =~= Seq::<ChangedView>::empty());
    assert(texts_of(only_in_first@) =~= Seq::<Seq<char>>::empty());
    assert(texts_of(dataless@) =~= Seq::<Seq<char>>::empty());
    assert(texts_of(errors@) =~= Seq::<Seq<char>>::empty());
    let mut i: usize = 0;
    while i < entries1.len()
        invariant
            i <= entries1@.len(),
            v1 == entry_views(entries1@),
            v2 == entry_views(entries2@),
            char_vec_views(prefixes@) == same_dir_list(v1, v2, entries1@.len()),
            index_ok(index2.buckets@, v2, entries2@.len() as int),
            changed_views(changed_dirs@) == changes_upto(v1, v2, i as nat, true),
            changed_views(changed_files@) == changes_upto(v1, v2, i as nat, false),
            texts_of(only_in_first@) == missing_upto(v1, v2, v1, v2, i as nat),
            texts_of(dataless@) == warnings_first(v1, v2, i as nat, EntryType::Dataless),
            texts_of(errors@) == warnings_first(v1, v2, i as nat, EntryType::Error),
        decreases entries1@.len() - i,
    {
        let e = &entries1[i];
        assert(v1[i as int] == e@);
        if !skipped_exec(&prefixes, entries1, entries2, &e.path) {
            match index2.last_index(entries2, &e.path) {
                Some(j) => {
                    let x = &entries2[j];
                    assert(lookup(v2, e@.2) == Some(x@));
                    push_path_if(&mut dataless, e, EntryType::Dataless);
                    push_path_if(&mut dataless, x, EntryType::Dataless);
                    push_path_if(&mut errors, e, EntryType::Error);
                    push_path_if(&mut errors, x, EntryType::Error);
                    if !(e.value == x.value) || e.entry_type != x.entry_type {
                        let c = ChangedEntry {
                            path: e.path.clone(),
                            value1: e.value.clone(),
                            value2: x.value.clone(),
                        };
                        if e.entry_type == EntryType::Dir || x.entry_type == EntryType::Dir {
                            let ghost before = changed_views(changed_dirs@);
                            changed_dirs.push(c);
                            assert(changed_views(changed_dirs@) =~= before.push(c@));
                        } else {
                            let ghost before = changed_views(changed_files@);
                            changed_files.push(c);
                            assert(changed_views(changed_files@) =~= before.push(c@));
                        }
                    }
                },
                None => {
                    let ghost before = texts_of(only_in_first@);
                    only_in_first.push(e.path.clone());
                    assert(texts_of(only_in_first@) =~= before.push(e@.2));
                    push_path_if(&mut dataless, e, EntryType::Dataless);
                    push_path_if(&mut errors, e, EntryType::Error);
                },
            }
        }
        assert(changed_views(changed_dirs@) == changes_upto(v1, v2, (i + 1) as nat, true));
        assert(changed_views(changed_files@) == changes_upto(v1, v2, (i + 1) as nat, false));
        assert(texts_of(only_in_first@) == missing_upto(v1, v2, v1, v2, (i + 1) as nat));
        assert(texts_of(dataless@) =~= warnings_first(v1, v2, (i + 1) as nat, EntryType::Dataless));
        assert(texts_of(errors@) =~= warnings_first(v1, v2, (i + 1) as nat, EntryType::Error));
        i = i + 1;
    }
    let mut dataless2: Vec<String> = Vec::new();
    let mut errors2: Vec<String> = Vec::new();
    assert(texts_of(only_in_second@) =~= Seq::<Seq<char>>::empty());
    assert(texts_of(dataless2@) =~= Seq::<Seq<char>>::empty());
    assert(texts_of(errors2@) =~= Seq::<Seq<char>>::empty());
    let mut k: usize = 0;
    while k < entries2.len()
        invariant
            k <= entries2@.len(),
            v1 == entry_views(entries1@),
            v2 == entry_views(entries2@),
            char_vec_views(prefixes@) == same_dir_list(v1, v2, entries1@.len()),
            index_ok(index1.buckets@, v1, entries1@.len() as int),
            texts_of(only_in_second@) == missing_upto(v1, v2, v2, v1, k as nat),
            texts_of(dataless2@) == warnings_second(v1, v2, k as nat, EntryType::Dataless),
            texts_of(errors2@) == warnings_second(v1, v2, k as nat, EntryType::Error),
        decreases entries2@.len() - k,
    {
        let e = &entries2[k];
        assert(v2[k as int] == e@);
        if !skipped_exec(&prefixes, entries1, entries2, &e.path) {
            if index1.last_index(entries1, &e.path).is_none() {
                let ghost before = texts_of(only_in_second@);
                only_in_second.push(e.path.clone());
                assert(texts_of(only_in_second@) =~= before.push(e@.2));
                push_path_if(&mut dataless2, e, EntryType::Dataless);
                push_path_if(&mut errors2, e, EntryType::Error);
            }
        }
        assert(texts_of(only_in_second@) == missing_upto(v1, v2, v2, v1, (k + 1) as nat));
        assert(texts_of(dataless2@) =~= warnings_second(v1, v2, (k + 1) as nat, EntryType::Dataless));
        assert(texts_of(errors2@) =~= warnings_second(v1, v2, (k + 1) as nat, EntryType::Error));
        k = k + 1;
    }
    let ghost dl_all = texts_of(dataless@) + texts_of(dataless2@);
    let ghost er_all = texts_of(errors@) + texts_of(errors2@);
    dataless.append(&mut dataless2);
    errors.append(&mut errors2);
    assert(texts_of(dataless@) =~= dl_all);
    assert(texts_of(errors@) =~= er_all);
    let identical = changed_dirs.len() == 0 && changed_files.len() == 0 && only_in_first.len() == 0
        && only_in_second.len() == 0;
    let dataless_warnings = dedup_exec(&dataless);
    let error_warnings = dedup_exec(&errors);
    let r = CompareResult {
        identical,
        host1: crate::text::string_of(&chars_of(host1)),
        host2: crate::text::string_of(&chars_of(host2)),
        changed_dirs,
        changed_files,
        only_in_first,
        only_in_second,
        dataless_warnings,
        error_warnings,
    };
    assert(r@ =~= compare_spec(v1, v2, host1@, host2@));
    r
}

/// Whether no two entries share a path.
pub open spec fn distinct_paths(es: Seq<EntryView>) -> bool {
    forall|i: int, j: int| 0 <= i < j < es.len() ==> es[i].2 != es[j].2
}

/// In a manifest without repeated paths, the last entry with an entry's path is that entry.
proof fn lemma_last_index_distinct(es: Seq<EntryView>, i: int)
    requires
        distinct_paths(es),
        0 <= i < es.len(),
    ensures
        last_index(es, es[i].2) == Some(i),
{
    lemma_last_index(es, es[i].2);
    match last_index(es, es[i].2) {
        Some(j) => {
            if j < i {
                assert(es[j].2 != es[i].2);
            }
        },
        None => {},
    }
}

/// A manifest without repeated paths shows no change and no missing path against itself.
proof fn lemma_changes_self(es: Seq<EntryView>, n: nat)
    requires
        distinct_paths(es),
        n <= es.len(),
    ensures
        changes_upto(es, es, n, true).len() == 0,
        changes_upto(es, es, n, false).len() == 0,
        missing_upto(es, es, es, es, n).len() == 0,
    decreases n,
{
    if n > 0 {
        lemma_changes_self(es, (n - 1) as nat);
        lemma_last_index_distinct(es, n - 1);
    }
}

/// A manifest lacks none of its own paths.
proof fn lemma_missing_self(es: Seq<EntryView>, n: nat)
    requires
        distinct_paths(es),
        n <= es.len(),
    ensures
        missing_upto(es, es, es, es, n).len() == 0,
    decreases n,
{
    if n > 0 {
        lemma_missing_self(es, (n - 1) as nat);
        lemma_last_index_distinct(es, n - 1);
    }
}

/// A manifest compared with itself is identical: nothing changed and nothing is on one
/// side only, whenever no two of its entries share a path.
pub proof fn lemma_compare_self(es: Seq<EntryView>, host1: Seq<char>, host2: Seq<char>)
    requires
        distinct_paths(es),
    ensures
        compare_spec(es, es, host1, host2).identical,
        compare_spec(es, es, host1, host2).changed_dirs.len() == 0,
        compare_spec(es, es, host1, host2).changed_files.len() == 0,
        compare_spec(es, es, host1, host2).only_in_first.len() == 0,
        compare_spec(es, es, host1, host2).only_in_second.len() == 0,
{
    lemma_changes_self(es, es.len());
    lemma_missing_self(es, es.len());
}

/// Formatted comparison output split into stdout (data) and stderr (informational).
pub struct CompareReport {
    /// Prefixed path lines: `!` changed, `<` only-in-first, `>` only-in-second.
    pub stdout: String,
    /// Summary, warnings, and status messages.
    pub stderr: String,
}

/// A line of the report: a mark, a path and a line feed.
pub open spec fn path_line(mark: Seq<char>, p: Seq<char>) -> Seq<char> {
    mark + p + seq!['\n']
}

/// The lines of changed entries: `!`, a tab and the path.
pub open spec fn changed_lines(cs: Seq<ChangedView>) -> Seq<char>
    decreases cs.len(),
{
    if cs.len() == 0 {
        Seq::empty()
    } else {
        changed_lines(cs.drop_last()) + path_line("!\t"@, cs.last().0)
    }
}

/// Whether a path names a directory: it ends with `/`.
pub open spec fn is_dir_path(p: Seq<char>) -> bool {
    p.len() > 0 && p.last() == '/'
}

/// The lines of paths on one side only; directory paths only when they are shown.
pub open spec fn side_lines(mark: Seq<char>, ps: Seq<Seq<char>>, show_directories: bool) -> Seq<
    char,
>
    decreases ps.len(),
{
    if ps.len() == 0 {
        Seq::empty()
    } else {
        side_lines(mark, ps.drop_last(), show_directories) + if !is_dir_path(ps.last())
            || show_directories {
            path_line(mark, ps.last())
        } else {
            Seq::empty()
        }
    }
}

/// The indented lines of warned paths.
pub open spec fn warning_lines(ps: Seq<Seq<char>>) -> Seq<char>
    decreases ps.len(),
{
    if ps.len() == 0 {
        Seq::empty()
    } else {
        warning_lines(ps.drop_last()) + path_line("  "@, ps.last())
    }
}

/// A block of warnings: nothing when there are none, else the title and the paths in
/// text order.
pub open spec fn warning_block(title: Seq<char>, ps: Seq<Seq<char>>) -> Seq<char> {
    if ps.len() == 0 {
        Seq::empty()
    } else {
        title + warning_lines(sorted_copy(ps))
    }
}

/// The summary line of a comparison that found differences.
pub open spec fn summary_line(r: CompareModel) -> Seq<char> {
    "\nSummary: "@ + decimal(r.changed_files.len()) + " files differ, "@ + decimal(
        r.changed_dirs.len(),
    ) + " dirs differ, "@ + decimal(r.only_in_first.len()) + " only in "@ + r.host1 + ", "@
        + decimal(r.only_in_second.len()) + " only in "@ + r.host2 + "\n"@
}

/// The data lines of a report.
pub open spec fn report_stdout(r: CompareModel, show_directories: bool) -> Seq<char> {
    if r.identical {
        Seq::empty()
    } else {
        (if show_directories {
            changed_lines(r.changed_dirs)
        } else {
            Seq::empty()
        }) + changed_lines(r.changed_files) + side_lines("<\t"@, r.only_in_first, show_directories)
            + side_lines(">\t"@, r.only_in_second, show_directories)
    }
}

/// The informational text of a report.
pub open spec fn report_stderr(r: CompareModel) -> Seq<char> {
    if r.identical {
        "Trees are identical.\n"@
    } else {
        "Root hashes differ.\n"@ + warning_block(
            "\nDataless warnings (content not verified):\n"@,
            r.dataless_warnings,
        ) + warning_block("\nError warnings (could not read):\n"@, r.error_warnings)
            + summary_line(r)
    }
}

/// Appends a report line.
fn push_path_line(out: &mut Vec<char>, mark: &str, p: &String)
    ensures
        final(out)@ == old(out)@ + path_line(mark@, p@),
{
    push_str(out, mark);
    push_str(out, p.as_str());
    out.push('\n');
    assert(final(out)@ =~= old(out)@ + path_line(mark@, p@));
}

/// Appends the lines of changed entries: `!`, a tab and the path.
fn push_changed_lines(out: &mut Vec<char>, cs: &Vec<ChangedEntry>)
    ensures
        final(out)@ == old(out)@ + changed_lines(changed_views(cs@)),
{
    let ghost start = out@;
    let ghost cv = changed_views(cs@);
    let mut i: usize = 0;
    assert(cv.take(0) =~= Seq::<ChangedView>::empty());
    assert(start + changed_lines(cv.take(0)) =~= start);
    while i < cs.len()
        invariant
            i <= cs@.len(),
            cv == changed_views(cs@),
            out@ == start + changed_lines(cv.take(i as int)),
        decreases cs@.len() - i,
    {
        assert(cv.take(i + 1).drop_last() =~= cv.take(i as int));
        assert(cv.take(i + 1).last() == cs@[i as int]@);
        push_path_line(out, "!\t", &cs[i].path);
        assert(out@ =~= start + changed_lines(cv.take(i + 1)));
        i = i + 1;
    }
    assert(cv.take(cs@.len() as int) =~= cv);
}

/// Appends the lines of paths on one side only.
fn push_side_lines(out: &mut Vec<char>, mark: &str, ps: &Vec<String>, show_directories: bool)
    ensures
        final(out)@ == old(out)@ + side_lines(mark@, texts_of(ps@), show_directories),
{
    let ghost start = out@;
    let ghost pv = texts_of(ps@);
    let mut i: usize = 0;
    assert(pv.take(0) =~= Seq::<Seq<char>>::empty());
    assert(start + side_lines(mark@, pv.take(0), show_directories) =~= start);
    while i < ps.len()
        invariant
            i <= ps@.len(),
            pv == texts_of(ps@),
            out@ == start + side_lines(mark@, pv.take(i as int), show_directories),
        decreases ps@.len() - i,
    {
        assert(pv.take(i + 1).drop_last() =~= pv.take(i as int));
        assert(pv.take(i + 1).last() == ps@[i as int]@);
        let pc = chars_of(ps[i].as_str());
        let is_dir = pc.len() > 0 && pc[pc.len() - 1] == '/';
        assert(is_dir == is_dir_path(ps@[i as int]@));
        let ghost before = out@;
        if !is_dir || show_directories {
            push_path_line(out, mark, &ps[i]);
        }
        assert(out@ =~= start + side_lines(mark@, pv.take(i + 1), show_directories));
        i = i + 1;
    }
    assert(pv.take(ps@.len() as int) =~= pv);
}

/// Appends a block of warnings: its title and the paths in text order.
fn push_warning_block(out: &mut Vec<char>, title: &str, ps: &Vec<String>)
    ensures
        final(out)@ == old(out)@ + warning_block(title@, texts_of(ps@)),
{
    if ps.len() == 0 {
        assert(old(out)@ + warning_block(title@, texts_of(ps@)) =~= old(out)@);
        return;
    }
    push_str(out, title);
    let sorted = sort_strings(ps);
    let ghost start = out@;
    let ghost sv = texts_of(sorted@);
    let mut i: usize = 0;
    assert(sv.take(0) =~= Seq::<Seq<char>>::empty());
    assert(start + warning_lines(sv.take(0)) =~= start);
    while i < sorted.len()
        invariant
            i <= sorted@.len(),
            sv == texts_of(sorted@),
            out@ == start + warning_lines(sv.take(i as int)),
        decreases sorted@.len() - i,
    {
        assert(sv.take(i + 1).drop_last() =~= sv.take(i as int));
        assert(sv.take(i + 1).last() == sorted@[i as int]@);
        push_path_line(out, "  ", &sorted[i]);
        assert(out@ =~= start + warning_lines(sv.take(i + 1)));
        i = i + 1;
    }
    assert(sv.take(sorted@.len() as int) =~= sv);
    assert(final(out)@ =~= old(out)@ + warning_block(title@, texts_of(ps@)));
}

/// Appends the summary line of a comparison.
fn push_summary(out: &mut Vec<char>, result: &CompareResult)
    ensures
        final(out)@ == old(out)@ + summary_line(result@),
{
    push_str(out, "\nSummary: ");
    push_decimal(out, result.changed_files.len() as u64);
    push_str(out, " files differ, ");
    push_decimal(out, result.changed_dirs.len() as u64);
    push_str(out, " dirs differ, ");
    push_decimal(out, result.only_in_first.len() as u64);
    push_str(out, " only in ");
    push_str(out, result.host1.as_str());
    push_str(out, ", ");
    push_decimal(out, result.only_in_second.len() as u64);
    push_str(out, " only in ");
    push_str(out, result.host2.as_str());
    push_str(out, "\n");
    assert(final(out)@ =~= old(out)@ + summary_line(result@));
}

/// Format a CompareResult for terminal output.
///
/// When `show_directories` is false (default), only changed files and
/// only-in-one-side entries appear on stdout. When true, changed and
/// one-sided directories are included too.
///
/// Data lines go to `stdout` (pipeable); informational output goes to `stderr`.
#[verifier::spinoff_prover]
pub fn format_report(result: &CompareResult, show_directories: bool) -> (report: CompareReport)
    ensures
        report.stdout@ == report_stdout(result@, show_directories),
        report.stderr@ == report_stderr(result@),
{
    let mut stdout: Vec<char> = Vec::new();
    let mut stderr: Vec<char> = Vec::new();
    if result.identical {
        push_str(&mut stderr, "Trees are identical.\n");
        return CompareReport { stdout: string_of(&stdout), stderr: string_of(&stderr) };
    }
    push_str(&mut stderr, "Root hashes differ.\n");
    if show_directories {
        push_changed_lines(&mut stdout, &result.changed_dirs);
    }
    push_changed_lines(&mut stdout, &result.changed_files);
    push_side_lines(&mut stdout, "<\t", &result.only_in_first, show_directories);
    push_side_lines(&mut stdout, ">\t", &result.only_in_second, show_directories);
    push_warning_block(
        &mut stderr,
        "\nDataless warnings (content not verified):\n",
        &result.dataless_warnings,
    );
    push_warning_block(&mut stderr, "\nError warnings (could not read):\n", &result.error_warnings);
    push_summary(&mut stderr, result);
    let ghost r = result@;
    assert(stdout@ =~= report_stdout(r, show_directories));
    assert(stderr@ =~= report_stderr(r));
    CompareReport { stdout: string_of(&stdout), stderr: string_of(&stderr) }
}

/// The manifest path of the root directory.
pub open spec fn root_path() -> Seq<char> {
    seq!['.', '/']
}

/// With the same root hash on both sides, nothing changed and the first side has no path
/// of its own.
proof fn lemma_changes_same_root(e1: Seq<EntryView>, e2: Seq<EntryView>, v: Seq<char>, n: nat)
    requires
        n <= e1.len(),
        exists|i: int| 0 <= i < e1.len() && e1[i] == (EntryType::Dir, v, root_path()),
        lookup(e2, root_path()) == Some((EntryType::Dir, v, root_path())),
        forall|i: int| 0 <= i < e1.len() ==> starts_with(#[trigger] e1[i].2, root_path()),
        forall|i: int| 0 <= i < e1.len() && #[trigger] e1[i].2 == root_path() ==> e1[i].0 == EntryType::Dir && e1[i].1 == v,
    ensures
        changes_upto(e1, e2, n, true).len() == 0,
        changes_upto(e1, e2, n, false).len() == 0,
        missing_upto(e1, e2, e1, e2, n).len() == 0,
    decreases n,
{
    if n > 0 {
        lemma_changes_same_root(e1, e2, v, (n - 1) as nat);
        let e = e1[n - 1];
        if e.2 != root_path() {
            let i = choose|i: int| 0 <= i < e1.len() && e1[i] == (EntryType::Dir, v, root_path());
            assert(same_dir(e1, e2, i));
            assert(strictly_below(e.2, e1[i].2));
        }
    }
}

/// With the same root hash on both sides, the second manifest has no path of its own.
proof fn lemma_missing_same_root(e1: Seq<EntryView>, e2: Seq<EntryView>, v: Seq<char>, n: nat)
    requires
        n <= e2.len(),
        exists|i: int| 0 <= i < e1.len() && e1[i] == (EntryType::Dir, v, root_path()),
        lookup(e2, root_path()) == Some((EntryType::Dir, v, root_path())),
        forall|i: int| 0 <= i < e2.len() ==> starts_with(#[trigger] e2[i].2, root_path()),
    ensures
        missing_upto(e1, e2, e2, e1, n).len() == 0,
    decreases n,
{
    if n > 0 {
        lemma_missing_same_root(e1, e2, v, (n - 1) as nat);
        let e = e2[n - 1];
        let i = choose|i: int| 0 <= i < e1.len() && e1[i] == (EntryType::Dir, v, root_path());
        if e.2 != root_path() {
            assert(same_dir(e1, e2, i));
            assert(strictly_below(e.2, e1[i].2));
        } else {
            lemma_last_index(e1, root_path());
            assert(e1[i].2 == e.2);
        }
    }
}

/// When both manifests give the root directory `./` the same hash, the trees are
/// identical: every other path lies below the root and is skipped. This holds for
/// manifests whose paths all begin with `./` and whose first manifest gives `./` no other
/// kind or value.
pub proof fn lemma_same_root_identical(
    e1: Seq<EntryView>,
    e2: Seq<EntryView>,
    v: Seq<char>,
    host1: Seq<char>,
    host2: Seq<char>,
)
    requires
        exists|i: int| 0 <= i < e1.len() && e1[i] == (EntryType::Dir, v, root_path()),
        lookup(e2, root_path()) == Some((EntryType::Dir, v, root_path())),
        forall|i: int| 0 <= i < e1.len() ==> starts_with(#[trigger] e1[i].2, root_path()),
        forall|i: int| 0 <= i < e2.len() ==> starts_with(#[trigger] e2[i].2, root_path()),
        forall|i: int| 0 <= i < e1.len() && #[trigger] e1[i].2 == root_path() ==> e1[i].0 == EntryType::Dir && e1[i].1 == v,
    ensures
        compare_spec(e1, e2, host1, host2).identical,
{
    lemma_changes_same_root(e1, e2, v, e1.len());
    lemma_missing_same_root(e1, e2, v, e2.len());
}

/// Two manifests of one tree, listed down to any two depths, compare as identical: both
/// give the root the same hash, so the comparison skips everything below it. This holds
/// for trees whose files have at least one path component each, all non-empty.
pub proof fn lemma_depths_compare_identical(
    l: Seq<InputModel>,
    d1: nat,
    d2: nat,
    host1: Seq<char>,
    host2: Seq<char>,
)
    requires
        forall|i: int| 0 <= i < l.len() ==> (#[trigger] l[i]).0.len() > 0,
        components_named(l),
    ensures
        compare_spec(manifest_listing(l, d1), manifest_listing(l, d2), host1, host2).identical,
{
    let e1 = manifest_listing(l, d1);
    let e2 = manifest_listing(l, d2);
    let v = hash_hex(manifest_root(l));
    let root = (EntryType::Dir, v, root_path());
    assert(e1[0] == root);
    assert(e2[0] == root);
    assert forall|j: int| 0 < j < e2.len() implies (#[trigger] e2[j]).2.len() > 2 && e2[j].2[0]
        == '.' && e2[j].2[1] == '/' by {
        assert(e2[j] == crate::merkle::dir_listing(l, 0, d2)[j - 1]);
        lemma_dir_listing_paths(l, 0, d2, e2[j]);
    }
    assert forall|j: int| 0 < j < e1.len() implies (#[trigger] e1[j]).2.len() > 2 && e1[j].2[0]
        == '.' && e1[j].2[1] == '/' by {
        assert(e1[j] == crate::merkle::dir_listing(l, 0, d1)[j - 1]);
        lemma_dir_listing_paths(l, 0, d1, e1[j]);
    }
    lemma_last_index_is(e2, root_path(), 0);
    assert forall|i: int| 0 <= i < e1.len() implies starts_with(#[trigger] e1[i].2, root_path()) by {
        assert(e1[i].2.subrange(0, 2) =~= root_path());
    }
    assert forall|i: int| 0 <= i < e2.len() implies starts_with(#[trigger] e2[i].2, root_path()) by {
        assert(e2[i].2.subrange(0, 2) =~= root_path());
    }
    assert forall|i: int| 0 <= i < e1.len() && #[trigger] e1[i].2 == root_path() implies e1[i].0
        == EntryType::Dir && e1[i].1 == v by {
        if i > 0 {
            assert(e1[i].2.len() > 2);
        }
    }
    lemma_same_root_identical(e1, e2, v, host1, host2);
}

/// Whether entry `i` of the first manifest makes the walk over it warn about path `p`
/// for kind `t`: it lies outside every skipped subtree and it, or the entry the second
/// manifest gives its path, is of kind `t` with path `p`.
pub open spec fn first_warns(e1: Seq<EntryView>, e2: Seq<EntryView>, i: int, t: EntryType, p: Seq<char>) -> bool {
    &&& !is_skipped(e1, e2, e1[i].2)
    &&& (e1[i].0 == t && e1[i].2 == p) || match lookup(e2, e1[i].2) {
        Some(x) => x.0 == t && x.2 == p,
        None => false,
    }
}

/// Whether entry `j` of the second manifest makes the walk over it warn about path `p`
/// for kind `t`: it lies outside every skipped subtree, the first manifest lacks its path,
/// and it is of kind `t` with path `p`.
pub open spec fn second_warns(e1: Seq<EntryView>, e2: Seq<EntryView>, j: int, t: EntryType, p: Seq<char>) -> bool {
    !is_skipped(e1, e2, e2[j].2) && last_index(e1, e2[j].2) is None && e2[j].0 == t && e2[j].2 == p
}

/// Removing repeats keeps every item.
proof fn lemma_dedup_contains(s: Seq<Seq<char>>, p: Seq<char>)
    ensures
        dedup(s).contains(p) <==> s.contains(p),
    decreases s.len(),
{
    if s.len() > 0 {
        let init = s.drop_last();
        let x = s.last();
        lemma_dedup_contains(init, p);
        let d = dedup(init);
        assert(s == init + seq![x]);
        lemma_contains_concat_texts(init, seq![x], p);
        lemma_contains_concat_texts(d, seq![x], p);
        assert(d.push(x) == d + seq![x]);
        assert(seq![x].contains(p) <==> x == p) by {
            if x == p {
                assert(seq![x][0] == p);
            }
        }
    }
}

/// An item of a concatenation is an item of one of its parts.
proof fn lemma_contains_concat_texts(a: Seq<Seq<char>>, b: Seq<Seq<char>>, e: Seq<char>)
    ensures
        (a + b).contains(e) <==> a.contains(e) || b.contains(e),
{
    if (a + b).contains(e) {
        let i = choose|i: int| 0 <= i < (a + b).len() && (a + b)[i] == e;
        if i < a.len() {
            assert(a[i] == e);
        } else {
            assert(b[i - a.len()] == e);
        }
    }
    if a.contains(e) {
        let i = choose|i: int| 0 <= i < a.len() && a[i] == e;
        assert((a + b)[i] == e);
    }
    if b.contains(e) {
        let i = choose|i: int| 0 <= i < b.len() && b[i] == e;
        assert((a + b)[a.len() + i] == e);
    }
}

/// The path an entry contributes for a kind.
proof fn lemma_path_if_contains(e: EntryView, t: EntryType, p: Seq<char>)
    ensures
        path_if(e, t).contains(p) <==> (e.0 == t && e.2 == p),
{
    if e.0 == t {
        assert(path_if(e, t)[0] == e.2);
    }
}

/// A path is warned about by the walk over the first manifest exactly when one of its
/// entries warns about it.
proof fn lemma_warnings_first(e1: Seq<EntryView>, e2: Seq<EntryView>, n: nat, t: EntryType, p: Seq<char>)
    requires
        n <= e1.len(),
    ensures
        warnings_first(e1, e2, n, t).contains(p) <==> exists|i: int|
            0 <= i < n && #[trigger] first_warns(e1, e2, i, t, p),
    decreases n,
{
    if n > 0 {
        lemma_warnings_first(e1, e2, (n - 1) as nat, t, p);
        let prev = warnings_first(e1, e2, (n - 1) as nat, t);
        let cur = warnings_first(e1, e2, n, t);
        let i = n - 1;
        let e = e1[i];
        let extra = if is_skipped(e1, e2, e.2) {
            Seq::<Seq<char>>::empty()
        } else {
            match lookup(e2, e.2) {
                Some(x) => path_if(e, t) + path_if(x, t),
                None => path_if(e, t),
            }
        };
        assert(cur == prev + extra) by {
            if !is_skipped(e1, e2, e.2) {
                match lookup(e2, e.2) {
                    Some(x) => {
                        assert(prev + path_if(e, t) + path_if(x, t) == prev + (path_if(e, t)
                            + path_if(x, t)));
                    },
                    None => {},
                }
            } else {
                assert(prev + extra == prev);
            }
        }
        lemma_contains_concat_texts(prev, extra, p);
        assert(extra.contains(p) <==> first_warns(e1, e2, i, t, p)) by {
            lemma_path_if_contains(e, t, p);
            if !is_skipped(e1, e2, e.2) {
                match lookup(e2, e.2) {
                    Some(x) => {
                        lemma_path_if_contains(x, t, p);
                        lemma_contains_concat_texts(path_if(e, t), path_if(x, t), p);
                    },
                    None => {},
                }
            }
        }
        if cur.contains(p) {
            if prev.contains(p) {
                let j = choose|j: int| 0 <= j < n - 1 && #[trigger] first_warns(e1, e2, j, t, p);
                assert(0 <= j < n && first_warns(e1, e2, j, t, p));
            } else {
                assert(first_warns(e1, e2, i, t, p));
            }
        }
        if exists|j: int| 0 <= j < n && #[trigger] first_warns(e1, e2, j, t, p) {
            let j = choose|j: int| 0 <= j < n && #[trigger] first_warns(e1, e2, j, t, p);
            if j < n - 1 {
                assert(prev.contains(p));
            } else {
                assert(extra.contains(p));
            }
        }
    }
}

/// A path is warned about by the walk over the second manifest exactly when one of its
/// entries warns about it.
proof fn lemma_warnings_second(e1: Seq<EntryView>, e2: Seq<EntryView>, n: nat, t: EntryType, p: Seq<char>)
    requires
        n <= e2.len(),
    ensures
        warnings_second(e1, e2, n, t).contains(p) <==> exists|j: int|
            0 <= j < n && #[trigger] second_warns(e1, e2, j, t, p),
    decreases n,
{
    if n > 0 {
        lemma_warnings_second(e1, e2, (n - 1) as nat, t, p);
        let prev = warnings_second(e1, e2, (n - 1) as nat, t);
        let cur = warnings_second(e1, e2, n, t);
        let e = e2[n - 1];
        let extra = if !is_skipped(e1, e2, e.2) && last_index(e1, e.2) is None {
            path_if(e, t)
        } else {
            Seq::<Seq<char>>::empty()
        };
        assert(cur == prev + extra) by {
            if !(!is_skipped(e1, e2, e.2) && last_index(e1, e.2) is None) {
                assert(prev + extra == prev);
            }
        }
        lemma_contains_concat_texts(prev, extra, p);
        lemma_path_if_contains(e, t, p);
        assert(extra.contains(p) <==> second_warns(e1, e2, n - 1, t, p));
        if cur.contains(p) {
            if prev.contains(p) {
                let j = choose|j: int| 0 <= j < n - 1 && #[trigger] second_warns(e1, e2, j, t, p);
                assert(0 <= j < n && second_warns(e1, e2, j, t, p));
            } else {
                assert(second_warns(e1, e2, n - 1, t, p));
            }
        }
        if exists|j: int| 0 <= j < n && #[trigger] second_warns(e1, e2, j, t, p) {
            let j = choose|j: int| 0 <= j < n && #[trigger] second_warns(e1, e2, j, t, p);
            if j < n - 1 {
                assert(prev.contains(p));
            } else {
                assert(extra.contains(p));
            }
        }
    }
}

/// Whether some entry of `es` is of kind `t` with path `p`.
pub open spec fn has_entry(es: Seq<EntryView>, t: EntryType, p: Seq<char>) -> bool {
    exists|i: int| 0 <= i < es.len() && #[trigger] es[i] == (t, es[i].1, p)
}

/// A comparison warns about a path, as dataless or as unreadable, exactly when an entry
/// of that kind has that path in either manifest and the path lies outside every skipped
/// subtree. This holds whenever no two entries of the second manifest share a path.
pub proof fn lemma_compare_warnings(
    e1: Seq<EntryView>,
    e2: Seq<EntryView>,
    host1: Seq<char>,
    host2: Seq<char>,
    p: Seq<char>,
)
    requires
        distinct_paths(e2),
    ensures
        compare_spec(e1, e2, host1, host2).dataless_warnings.contains(p) <==> !is_skipped(e1, e2, p)
            && (has_entry(e1, EntryType::Dataless, p) || has_entry(e2, EntryType::Dataless, p)),
        compare_spec(e1, e2, host1, host2).error_warnings.contains(p) <==> !is_skipped(e1, e2, p)
            && (has_entry(e1, EntryType::Error, p) || has_entry(e2, EntryType::Error, p)),
{
    lemma_warnings_kind(e1, e2, p, EntryType::Dataless);
    lemma_warnings_kind(e1, e2, p, EntryType::Error);
}

/// The warnings of one kind are the unskipped paths of entries of that kind.
proof fn lemma_warnings_kind(e1: Seq<EntryView>, e2: Seq<EntryView>, p: Seq<char>, t: EntryType)
    requires
        distinct_paths(e2),
    ensures
        dedup(warnings_first(e1, e2, e1.len(), t) + warnings_second(e1, e2, e2.len(), t)).contains(p) <==> !is_skipped(e1, e2, p) && (has_entry(e1, t, p) || has_entry(e2, t, p)),
{
    let a = warnings_first(e1, e2, e1.len(), t);
    let b = warnings_second(e1, e2, e2.len(), t);
    lemma_dedup_contains(a + b, p);
    lemma_contains_concat_texts(a, b, p);
    lemma_warnings_first(e1, e2, e1.len(), t, p);
    lemma_warnings_second(e1, e2, e2.len(), t, p);
    if a.contains(p) {
        let i = choose|i: int| 0 <= i < e1.len() && #[trigger] first_warns(e1, e2, i, t, p);
        if e1[i].0 == t && e1[i].2 == p {
            assert(e1[i] == (t, e1[i].1, p));
        } else {
            lemma_last_index(e2, e1[i].2);
            let j = last_index(e2, e1[i].2)->0;
            assert(e2[j] == (t, e2[j].1, p));
        }
    }
    if b.contains(p) {
        let j = choose|j: int| 0 <= j < e2.len() && #[trigger] second_warns(e1, e2, j, t, p);
        assert(e2[j] == (t, e2[j].1, p));
    }
    if !is_skipped(e1, e2, p) && has_entry(e1, t, p) {
        let i = choose|i: int| 0 <= i < e1.len() && #[trigger] e1[i] == (t, e1[i].1, p);
        assert(first_warns(e1, e2, i, t, p));
    }
    if !is_skipped(e1, e2, p) && has_entry(e2, t, p) {
        let j = choose|j: int| 0 <= j < e2.len() && #[trigger] e2[j] == (t, e2[j].1, p);
        lemma_last_index(e1, p);
        match last_index(e1, p) {
            Some(i) => {
                lemma_last_index_distinct(e2, j);
                assert(lookup(e2, e1[i].2) == Some(e2[j]));
                assert(first_warns(e1, e2, i, t, p));
            },
            None => {
                assert(second_warns(e1, e2, j, t, p));
            },
        }
    }
}

/// With no repeated path on either side, a path lies in a skipped subtree whichever
/// manifest comes first.
proof fn lemma_skipped_symmetric(e1: Seq<EntryView>, e2: Seq<EntryView>, p: Seq<char>)
    requires
        distinct_paths(e1),
        distinct_paths(e2),
    ensures
        is_skipped(e1, e2, p) == is_skipped(e2, e1, p),
{
    if is_skipped(e1, e2, p) {
        let i = choose|i: int| 0 <= i < e1.len() && #[trigger] same_dir(e1, e2, i) && strictly_below(p, e1[i].2);
        lemma_last_index(e2, e1[i].2);
        let j = last_index(e2, e1[i].2)->Some_0;
        lemma_last_index_distinct(e1, i);
        assert(same_dir(e2, e1, j));
    }
    if is_skipped(e2, e1, p) {
        let j = choose|j: int| 0 <= j < e2.len() && #[trigger] same_dir(e2, e1, j) && strictly_below(p, e2[j].2);
        lemma_last_index(e1, e2[j].2);
        let i = last_index(e1, e2[j].2)->Some_0;
        lemma_last_index_distinct(e2, j);
        assert(same_dir(e1, e2, i));
    }
}

/// The paths on one side only are the same whichever manifest comes first.
proof fn lemma_missing_symmetric(
    e1: Seq<EntryView>,
    e2: Seq<EntryView>,
    a: Seq<EntryView>,
    b: Seq<EntryView>,
    n: nat,
)
    requires
        distinct_paths(e1),
        distinct_paths(e2),
        n <= a.len(),
    ensures
        missing_upto(e1, e2, a, b, n) == missing_upto(e2, e1, a, b, n),
    decreases n,
{
    if n > 0 {
        lemma_missing_symmetric(e1, e2, a, b, (n - 1) as nat);
        lemma_skipped_symmetric(e1, e2, a[n - 1].2);
    }
}

/// A change is listed exactly when some entry among the first `n` differs and is
/// reported as that change.
proof fn lemma_changes_contains(
    e1: Seq<EntryView>,
    e2: Seq<EntryView>,
    n: nat,
    dirs: bool,
    c: ChangedView,
)
    requires
        n <= e1.len(),
    ensures
        changes_upto(e1, e2, n, dirs).contains(c) <==> exists|i: int|
            0 <= i < n && #[trigger] differs_at(e1, e2, i) && dir_change_at(e1, e2, i) == dirs
                && change_at(e1, e2, i) == c,
    decreases n,
{
    if n > 0 {
        lemma_changes_contains(e1, e2, (n - 1) as nat, dirs, c);
        let prev = changes_upto(e1, e2, (n - 1) as nat, dirs);
        if differs_at(e1, e2, n - 1) && dir_change_at(e1, e2, n - 1) == dirs {
            assert(prev.push(change_at(e1, e2, n - 1)).last() == change_at(e1, e2, n - 1));
            if prev.contains(c) {
                let k = choose|k: int| 0 <= k < prev.len() && #[trigger] prev[k] == c;
                assert(prev.push(change_at(e1, e2, n - 1))[k] == c);
            }
            let full = prev.push(change_at(e1, e2, n - 1));
            if full.contains(c) {
                let k = choose|k: int| 0 <= k < full.len() && #[trigger] full[k] == c;
                if k < prev.len() {
                    assert(prev[k] == c);
                }
            }
        }
    }
}

/// A change reported at an entry of the first manifest is reported, with its two values
/// swapped, at the entry of the second manifest with the same path.
proof fn lemma_change_mirrored(e1: Seq<EntryView>, e2: Seq<EntryView>, i: int)
    requires
        distinct_paths(e1),
        distinct_paths(e2),
        0 <= i < e1.len(),
        differs_at(e1, e2, i),
    ensures
        exists|j: int|
            0 <= j < e2.len() && #[trigger] differs_at(e2, e1, j) && dir_change_at(e2, e1, j)
                == dir_change_at(e1, e2, i) && change_at(e2, e1, j) == (change_at(e1, e2, i).0, change_at(
                e1,
                e2,
                i,
            ).2, change_at(e1, e2, i).1),
{
    lemma_last_index(e2, e1[i].2);
    let j = last_index(e2, e1[i].2)->Some_0;
    lemma_last_index_distinct(e1, i);
    lemma_skipped_symmetric(e1, e2, e1[i].2);
    assert(differs_at(e2, e1, j));
}

/// Comparing two manifests the other way round mirrors the result: the same verdict; the
/// paths only in the first become the paths only in the second and the other way round,
/// in the same order; every changed directory or file is reported with its two values
/// swapped; and the same paths are warned about. This holds for manifests in which no
/// path occurs twice.
pub proof fn lemma_compare_symmetric(
    e1: Seq<EntryView>,
    e2: Seq<EntryView>,
    host1: Seq<char>,
    host2: Seq<char>,
)
    requires
        distinct_paths(e1),
        distinct_paths(e2),
    ensures
        ({
            let a = compare_spec(e1, e2, host1, host2);
            let b = compare_spec(e2, e1, host2, host1);
            &&& a.identical == b.identical
            &&& a.only_in_first == b.only_in_second
            &&& a.only_in_second == b.only_in_first
            &&& forall|c: ChangedView| #[trigger] a.changed_dirs.contains(c) <==> b.changed_dirs.contains(
                (c.0, c.2, c.1),
            )
            &&& forall|c: ChangedView| #[trigger] a.changed_files.contains(c) <==> b.changed_files.contains(
                (c.0, c.2, c.1),
            )
            &&& forall|p: Seq<char>| #[trigger] a.dataless_warnings.contains(p) <==> b.dataless_warnings.contains(p)
            &&& forall|p: Seq<char>| #[trigger] a.error_warnings.contains(p) <==> b.error_warnings.contains(p)
        }),
{
    let a = compare_spec(e1, e2, host1, host2);
    let b = compare_spec(e2, e1, host2, host1);
    lemma_missing_symmetric(e1, e2, e1, e2, e1.len());
    lemma_missing_symmetric(e1, e2, e2, e1, e2.len());
    assert forall|c: ChangedView, dirs: bool| #[trigger] changes_upto(e1, e2, e1.len(), dirs).contains(c)
        <==> changes_upto(e2, e1, e2.len(), dirs).contains((c.0, c.2, c.1)) by {
        let m = (c.0, c.2, c.1);
        lemma_changes_contains(e1, e2, e1.len(), dirs, c);
        lemma_changes_contains(e2, e1, e2.len(), dirs, m);
        if changes_upto(e1, e2, e1.len(), dirs).contains(c) {
            let i = choose|i: int|
                0 <= i < e1.len() && #[trigger] differs_at(e1, e2, i) && dir_change_at(e1, e2, i) == dirs
                    && change_at(e1, e2, i) == c;
            lemma_change_mirrored(e1, e2, i);
        }
        if changes_upto(e2, e1, e2.len(), dirs).contains(m) {
            let j = choose|j: int|
                0 <= j < e2.len() && #[trigger] differs_at(e2, e1, j) && dir_change_at(e2, e1, j) == dirs
                    && change_at(e2, e1, j) == m;
            lemma_change_mirrored(e2, e1, j);
            assert((m.0, m.2, m.1) == c);
        }
    }
    assert forall|c: ChangedView| #[trigger] a.changed_dirs.contains(c) <==> b.changed_dirs.contains(
        (c.0, c.2, c.1),
    ) by {
        assert(changes_upto(e1, e2, e1.len(), true).contains(c) <==> changes_upto(e2, e1, e2.len(), true).contains((c.0, c.2, c.1)));
    }
    assert forall|c: ChangedView| #[trigger] a.changed_files.contains(c) <==> b.changed_files.contains(
        (c.0, c.2, c.1),
    ) by {
        assert(changes_upto(e1, e2, e1.len(), false).contains(c) <==> changes_upto(e2, e1, e2.len(), false).contains((c.0, c.2, c.1)));
    }
    if a.changed_dirs.len() > 0 {
        assert(a.changed_dirs.contains(a.changed_dirs[0]));
        let c = a.changed_dirs[0];
        assert(b.changed_dirs.contains((c.0, c.2, c.1)));
    }
    if b.changed_dirs.len() > 0 {
        let m = b.changed_dirs[0];
        assert(b.changed_dirs.contains(m));
        assert(a.changed_dirs.contains((m.0, m.2, m.1)));
    }
    if a.changed_files.len() > 0 {
        assert(a.changed_files.contains(a.changed_files[0]));
        let c = a.changed_files[0];
        assert(b.changed_files.contains((c.0, c.2, c.1)));
    }
    if b.changed_files.len() > 0 {
        let m = b.changed_files[0];
        assert(b.changed_files.contains(m));
        assert(a.changed_files.contains((m.0, m.2, m.1)));
    }
    assert forall|p: Seq<char>| #[trigger] a.dataless_warnings.contains(p) <==> b.dataless_warnings.contains(p) by {
        lemma_warnings_kind(e1, e2, p, EntryType::Dataless);
        lemma_warnings_kind(e2, e1, p, EntryType::Dataless);
        lemma_skipped_symmetric(e1, e2, p);
    }
    assert forall|p: Seq<char>| #[trigger] a.error_warnings.contains(p) <==> b.error_warnings.contains(p) by {
        lemma_warnings_kind(e1, e2, p, EntryType::Error);
        lemma_warnings_kind(e2, e1, p, EntryType::Error);
        lemma_skipped_symmetric(e1, e2, p);
    }
}

/// Whether `text` holds `line`, followed by a line feed, as a line of its own: at its
/// start or right after a line feed.
pub open spec fn has_line(text: Seq<char>, line: Seq<char>) -> bool {
    exists|i: int| #[trigger] matches_at(text, line + seq!['\n'], i) && (i == 0 || text[i - 1] == '\n')
}

/// Whether a text is empty or ends with a line feed.
pub open spec fn ends_line(text: Seq<char>) -> bool {
    text.len() == 0 || text.last() == '\n'
}

/// A line of a text is a line of the text with whole lines put before and anything after.
proof fn lemma_has_line_within(a: Seq<char>, s: Seq<char>, b: Seq<char>, line: Seq<char>)
    requires
        ends_line(a),
        has_line(s, line),
    ensures
        has_line(a + s + b, line),
{
    let l = line + seq!['\n'];
    let i = choose|i: int| #[trigger] matches_at(s, l, i) && (i == 0 || s[i - 1] == '\n');
    let t = a + s + b;
    let j = a.len() + i;
    assert(t.subrange(j, j + l.len()) =~= s.subrange(i, i + l.len()));
    assert(matches_at(t, l, j));
    if i > 0 {
        assert(t[j - 1] == s[i - 1]);
    } else if a.len() > 0 {
        assert(t[j - 1] == a.last());
    }
}

/// A report line is a line of its own.
proof fn lemma_path_line_is_line(mark: Seq<char>, p: Seq<char>)
    ensures
        has_line(path_line(mark, p), mark + p),
        ends_line(path_line(mark, p)),
{
    let t = path_line(mark, p);
    assert(t.subrange(0, t.len() as int) =~= (mark + p) + seq!['\n']);
    assert(matches_at(t, (mark + p) + seq!['\n'], 0));
}

/// The lines of one side list each path that is not a directory, or every path when
/// directories are shown.
proof fn lemma_side_lines_list(mark: Seq<char>, ps: Seq<Seq<char>>, sd: bool, k: int)
    requires
        0 <= k < ps.len(),
        sd || !is_dir_path(ps[k]),
    ensures
        has_line(side_lines(mark, ps, sd), mark + ps[k]),
    decreases ps.len(),
{
    let prev = side_lines(mark, ps.drop_last(), sd);
    let tail = if !is_dir_path(ps.last()) || sd {
        path_line(mark, ps.last())
    } else {
        Seq::<char>::empty()
    };
    lemma_side_lines_end(mark, ps.drop_last(), sd);
    if k == ps.len() - 1 {
        lemma_path_line_is_line(mark, ps[k]);
        lemma_has_line_within(prev, tail, Seq::empty(), mark + ps[k]);
        assert(prev + tail + Seq::<char>::empty() =~= side_lines(mark, ps, sd));
    } else {
        assert(ps.drop_last()[k] == ps[k]);
        lemma_side_lines_list(mark, ps.drop_last(), sd, k);
        lemma_has_line_within(Seq::empty(), prev, tail, mark + ps[k]);
        assert(Seq::<char>::empty() + prev + tail =~= side_lines(mark, ps, sd));
    }
}

/// The lines of one side are whole lines.
proof fn lemma_side_lines_end(mark: Seq<char>, ps: Seq<Seq<char>>, sd: bool)
    ensures
        ends_line(side_lines(mark, ps, sd)),
    decreases ps.len(),
{
    if ps.len() > 0 {
        lemma_side_lines_end(mark, ps.drop_last(), sd);
    }
}

/// The lines of changed entries list each of them.
proof fn lemma_changed_lines_list(cs: Seq<ChangedView>, k: int)
    requires
        0 <= k < cs.len(),
    ensures
        has_line(changed_lines(cs), "!\t"@ + cs[k].0),
    decreases cs.len(),
{
    let prev = changed_lines(cs.drop_last());
    let tail = path_line("!\t"@, cs.last().0);
    lemma_changed_lines_end(cs.drop_last());
    if k == cs.len() - 1 {
        lemma_path_line_is_line("!\t"@, cs[k].0);
        lemma_has_line_within(prev, tail, Seq::empty(), "!\t"@ + cs[k].0);
        assert(prev + tail + Seq::<char>::empty() =~= changed_lines(cs));
    } else {
        assert(cs.drop_last()[k] == cs[k]);
        lemma_changed_lines_list(cs.drop_last(), k);
        lemma_has_line_within(Seq::empty(), prev, tail, "!\t"@ + cs[k].0);
        assert(Seq::<char>::empty() + prev + tail =~= changed_lines(cs));
    }
}

/// The lines of changed entries are whole lines.
proof fn lemma_changed_lines_end(cs: Seq<ChangedView>)
    ensures
        ends_line(changed_lines(cs)),
    decreases cs.len(),
{
    if cs.len() > 0 {
        lemma_changed_lines_end(cs.drop_last());
    }
}

/// The report of a comparison that found differences lists on stdout, each as a line of
/// its own of a mark, a tab and the path: every changed file with `!`; every changed
/// directory with `!` when directories are shown; and every path only in the first
/// manifest with `<`, and every path only in the second with `>`, when it is not a
/// directory (it does not end with `/`) or directories are shown. Both sides follow the
/// same rule.
pub proof fn lemma_report_lists_differences(r: CompareModel, show_directories: bool)
    requires
        !r.identical,
    ensures
        forall|k: int|
            0 <= k < r.changed_files.len() ==> has_line(
                report_stdout(r, show_directories),
                "!\t"@ + (#[trigger] r.changed_files[k]).0,
            ),
        forall|k: int|
            0 <= k < r.changed_dirs.len() && show_directories ==> has_line(
                report_stdout(r, show_directories),
                "!\t"@ + (#[trigger] r.changed_dirs[k]).0,
            ),
        forall|k: int|
            0 <= k < r.only_in_first.len() && (show_directories || !(r.only_in_first[k].len() > 0
                && r.only_in_first[k].last() == '/')) ==> has_line(
                report_stdout(r, show_directories),
                "<\t"@ + #[trigger] r.only_in_first[k],
            ),
        forall|k: int|
            0 <= k < r.only_in_second.len() && (show_directories || !(r.only_in_second[k].len() > 0
                && r.only_in_second[k].last() == '/')) ==> has_line(
                report_stdout(r, show_directories),
                ">\t"@ + #[trigger] r.only_in_second[k],
            ),
{
    let sd = show_directories;
    let dirs = if sd {
        changed_lines(r.changed_dirs)
    } else {
        Seq::<char>::empty()
    };
    let files = changed_lines(r.changed_files);
    let first = side_lines("<\t"@, r.only_in_first, sd);
    let second = side_lines(">\t"@, r.only_in_second, sd);
    lemma_changed_lines_end(r.changed_dirs);
    lemma_changed_lines_end(r.changed_files);
    lemma_side_lines_end("<\t"@, r.only_in_first, sd);
    assert(report_stdout(r, sd) == dirs + files + first + second);
    assert(ends_line(dirs + files)) by {
        if files.len() == 0 {
            assert(dirs + files =~= dirs);
        } else {
            assert((dirs + files).last() == files.last());
        }
    }
    assert(ends_line(dirs + files + first)) by {
        if first.len() == 0 {
            assert(dirs + files + first =~= dirs + files);
        } else {
            assert((dirs + files + first).last() == first.last());
        }
    }
    assert forall|k: int| 0 <= k < r.changed_files.len() implies has_line(
        report_stdout(r, sd),
        "!\t"@ + (#[trigger] r.changed_files[k]).0,
    ) by {
        lemma_changed_lines_list(r.changed_files, k);
        lemma_has_line_within(dirs, files, first + second, "!\t"@ + r.changed_files[k].0);
        assert(dirs + files + (first + second) =~= dirs + files + first + second);
    }
    assert forall|k: int| 0 <= k < r.changed_dirs.len() && sd implies has_line(
        report_stdout(r, sd),
        "!\t"@ + (#[trigger] r.changed_dirs[k]).0,
    ) by {
        lemma_changed_lines_list(r.changed_dirs, k);
        lemma_has_line_within(Seq::empty(), dirs, files + first + second, "!\t"@ + r.changed_dirs[k].0);
        assert(Seq::<char>::empty() + dirs + (files + first + second) =~= dirs + files + first + second);
    }
    assert forall|k: int|
        0 <= k < r.only_in_first.len() && (sd || !(r.only_in_first[k].len() > 0
            && r.only_in_first[k].last() == '/')) implies has_line(
        report_stdout(r, sd),
        "<\t"@ + #[trigger] r.only_in_first[k],
    ) by {
        lemma_side_lines_list("<\t"@, r.only_in_first, sd, k);
        lemma_has_line_within(dirs + files, first, second, "<\t"@ + r.only_in_first[k]);
    }
    assert forall|k: int|
        0 <= k < r.only_in_second.len() && (sd || !(r.only_in_second[k].len() > 0
            && r.only_in_second[k].last() == '/')) implies has_line(
        report_stdout(r, sd),
        ">\t"@ + #[trigger] r.only_in_second[k],
    ) by {
        lemma_side_lines_list(">\t"@, r.only_in_second, sd, k);
        lemma_has_line_within(dirs + files + first, second, Seq::empty(), ">\t"@ + r.only_in_second[k]);
        assert(dirs + files + first + second + Seq::<char>::empty() =~= dirs + files + first + second);
    }
}

/// A path is skipped exactly when it lies inside a directory that has the same hash in
/// both manifests: it begins with that directory's full path (its trailing `/` included)
/// and is not that path itself.
pub proof fn lemma_skipped_inside_same_dir(e1: Seq<EntryView>, e2: Seq<EntryView>, p: Seq<char>)
    ensures
        is_skipped(e1, e2, p) <==> exists|j: int|
            0 <= j < e1.len() && #[trigger] same_dir(e1, e2, j) && p != e1[j].2 && p.len()
                >= e1[j].2.len() && p.subrange(0, e1[j].2.len() as int) == e1[j].2,
{
    if is_skipped(e1, e2, p) {
        let j = choose|j: int| 0 <= j < e1.len() && #[trigger] same_dir(e1, e2, j) && strictly_below(p, e1[j].2);
        assert(same_dir(e1, e2, j));
    }
    if exists|j: int|
        0 <= j < e1.len() && #[trigger] same_dir(e1, e2, j) && p != e1[j].2 && p.len() >= e1[j].2.len()
            && p.subrange(0, e1[j].2.len() as int) == e1[j].2 {
        let j = choose|j: int|
            0 <= j < e1.len() && #[trigger] same_dir(e1, e2, j) && p != e1[j].2 && p.len() >= e1[j].2.len()
                && p.subrange(0, e1[j].2.len() as int) == e1[j].2;
        assert(strictly_below(p, e1[j].2));
    }
}

/// An entry of the first manifest that lies inside no directory with the same hash in both
/// manifests, and whose path the second manifest gives another value or kind, is reported
/// as changed, with its two values: among the changed directories when either side is a
/// directory, else among the changed files. An entry inside such a directory is never
/// reported as changed.
pub proof fn lemma_changed_entry_reported(
    e1: Seq<EntryView>,
    e2: Seq<EntryView>,
    host1: Seq<char>,
    host2: Seq<char>,
    i: int,
)
    requires
        0 <= i < e1.len(),
    ensures
        ({
            let p = e1[i].2;
            let r = compare_spec(e1, e2, host1, host2);
            let inside = exists|j: int|
                0 <= j < e1.len() && #[trigger] same_dir(e1, e2, j) && p != e1[j].2 && p.len()
                    >= e1[j].2.len() && p.subrange(0, e1[j].2.len() as int) == e1[j].2;
            &&& !inside ==> match lookup(e2, p) {
                Some(x) => (x.1 != e1[i].1 || x.0 != e1[i].0) ==> (if e1[i].0 == EntryType::Dir
                    || x.0 == EntryType::Dir {
                    r.changed_dirs.contains((p, e1[i].1, x.1))
                } else {
                    r.changed_files.contains((p, e1[i].1, x.1))
                }),
                None => true,
            }
            &&& inside ==> forall|c: ChangedView|
                (#[trigger] r.changed_dirs.contains(c) || r.changed_files.contains(c)) ==> c.0 != p
        }),
{
    let p = e1[i].2;
    lemma_skipped_inside_same_dir(e1, e2, p);
    match lookup(e2, p) {
        Some(x) => {
            if !is_skipped(e1, e2, p) && (x.1 != e1[i].1 || x.0 != e1[i].0) {
                assert(differs_at(e1, e2, i));
                let dirs = dir_change_at(e1, e2, i);
                lemma_changes_contains(e1, e2, e1.len(), dirs, change_at(e1, e2, i));
            }
        },
        None => {},
    }
    if is_skipped(e1, e2, p) {
        assert forall|c: ChangedView|
            (#[trigger] compare_spec(e1, e2, host1, host2).changed_dirs.contains(c)
                || compare_spec(e1, e2, host1, host2).changed_files.contains(c)) implies c.0 != p by {
            lemma_changes_contains(e1, e2, e1.len(), true, c);
            lemma_changes_contains(e1, e2, e1.len(), false, c);
            if compare_spec(e1, e2, host1, host2).changed_dirs.contains(c) {
                let k = choose|k: int|
                    0 <= k < e1.len() && #[trigger] differs_at(e1, e2, k) && dir_change_at(e1, e2, k)
                        == true && change_at(e1, e2, k) == c;
                assert(c.0 == e1[k].2);
            } else {
                let k = choose|k: int|
                    0 <= k < e1.len() && #[trigger] differs_at(e1, e2, k) && dir_change_at(e1, e2, k)
                        == false && change_at(e1, e2, k) == c;
                assert(c.0 == e1[k].2);
            }
        }
    }
}

} // verus!
