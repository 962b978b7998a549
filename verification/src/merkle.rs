//! The Merkle hash of a tree of file hashes, and the flat manifest listing of the tree.
//!
//! A directory's hash is the BLAKE3 hash of the concatenation, over its children in input
//! order, of `name`, a zero byte and the child's hash. The input is the list of file
//! entries, each given by its path components; directories are implied by the paths. A
//! directory's children are read off the input in one pass: a file entry directly inside
//! it is one child, and each maximal run of consecutive entries below the same child
//! directory name is one child directory.

use vstd::prelude::*;
use vstd::utf8::encode_utf8;
use crate::hash::{
    FileHash, blake3_digest, blake3_hash, hash_hex, hash_to_hex, hasher_finalize, hasher_input,
    hasher_new, hasher_update,
};
use crate::text::{chars_of, decimal, decimal_string, lemma_decimal_parses, push_str, string_of};
use crate::order::{
    chars_le, key_le, key_view, lemma_key_le_single, lemma_map_same_elements, reversed, sort_by_key,
    sorted_by_key,
};

verus! {

broadcast use {vstd::seq_lib::group_to_multiset_ensures, vstd::multiset::group_multiset_axioms};

/// The kind of a manifest entry.
#[derive(Debug, Clone, Copy, PartialEq, Eq, Structural)]
pub enum EntryType {
    Blake3,
    Dataless,
    Error,
    Symlink,
    /// Directory with computed Merkle hash.
    Dir,
}

/// A flattened entry for manifest output.
#[derive(Debug, Clone)]
pub struct FlatEntry {
    pub entry_type: EntryType,
    /// Hex hash, file size, error reason, or symlink target.
    pub value: String,
    /// Relative path with ./ prefix.
    pub path: String,
}

/// A manifest entry as values: its kind, its value text and its path text.
pub type EntryView = (EntryType, Seq<char>, Seq<char>);

impl View for FlatEntry {
    type V = EntryView;

    open spec fn view(&self) -> EntryView {
        (self.entry_type, self.value@, self.path@)
    }
}

/// The views of a sequence of flat entries.
pub open spec fn flat_views(s: Seq<FlatEntry>) -> Seq<EntryView> {
    s.map_values(|e: FlatEntry| e@)
}

/// An input entry as values: its path components and its file hash.
pub type InputModel = (Seq<Seq<char>>, FileHash);

/// The path components of an input entry, as text.
pub open spec fn components_view(c: Seq<String>) -> Seq<Seq<char>> {
    c.map_values(|s: String| s@)
}

/// The input entries as values.
pub open spec fn input_model(entries: Seq<(Vec<String>, FileHash)>) -> Seq<InputModel> {
    entries.map_values(|e: (Vec<String>, FileHash)| (components_view(e.0@), e.1))
}

/// The hash that stands for a special entry: BLAKE3 of `kind:value` in UTF-8.
pub open spec fn synthetic_digest(kind: Seq<char>, value: Seq<char>) -> Seq<u8> {
    blake3_digest(encode_utf8(kind + seq![':'] + value))@
}

/// The hash a file entry contributes to its directory.
pub open spec fn effective_hash(h: FileHash) -> Seq<u8> {
    match h {
        FileHash::Blake3(b) => b@,
        FileHash::Dataless(size) => synthetic_digest("dataless"@, decimal(size as nat)),
        FileHash::Error(reason) => synthetic_digest("error"@, reason@),
        FileHash::Symlink(target) => synthetic_digest("symlink"@, target@),
    }
}

/// What one child adds to its directory's hash input: name, a zero byte, hash.
pub open spec fn child_record(name: Seq<char>, hash: Seq<u8>) -> Seq<u8> {
    encode_utf8(name) + seq![0u8] + hash
}

/// A measure that shrinks along the recursion over a directory's entries.
pub open spec fn weight(l: Seq<InputModel>, k: nat) -> nat
    decreases l.len(),
{
    if l.len() == 0 {
        0
    } else {
        (if l[0].0.len() > k {
            (l[0].0.len() - k) as nat
        } else {
            1
        }) + weight(l.drop_first(), k)
    }
}

/// The number of leading entries that lie below child directory `name` of a directory at
/// depth `k`.
pub open spec fn run_len(l: Seq<InputModel>, k: nat, name: Seq<char>) -> nat
    decreases l.len(),
{
    if l.len() > 0 && l[0].0.len() > k + 1 && l[0].0[k as int] == name {
        1 + run_len(l.drop_first(), k, name)
    } else {
        0
    }
}

/// The measure of entries splits over a prefix and the rest.
pub proof fn lemma_weight_split(l: Seq<InputModel>, k: nat, n: int)
    requires
        0 <= n <= l.len(),
    ensures
        weight(l, k) == weight(l.take(n), k) + weight(l.skip(n), k),
        weight(l.take(n), k) >= n,
    decreases n,
{
    if n == 0 {
        assert(l.skip(0) == l);
        assert(l.take(0).len() == 0);
    } else {
        lemma_weight_split(l.drop_first(), k, n - 1);
        assert(l.take(n).drop_first() == l.drop_first().take(n - 1));
        assert(l.take(n)[0] == l[0]);
        assert(l.skip(n) == l.drop_first().skip(n - 1));
    }
}

/// Entries that all lie below a child directory weigh less one level deeper.
pub proof fn lemma_weight_deeper(l: Seq<InputModel>, k: nat)
    requires
        forall|i: int| 0 <= i < l.len() ==> (#[trigger] l[i]).0.len() > k + 1,
    ensures
        weight(l, k + 1) + l.len() == weight(l, k),
    decreases l.len(),
{
    if l.len() > 0 {
        assert(forall|i: int|
            0 <= i < l.drop_first().len() ==> l.drop_first()[i] == #[trigger] l[i + 1]);
        lemma_weight_deeper(l.drop_first(), k);
    }
}

/// The leading run below a child directory is that long and no longer.
pub proof fn lemma_run_len(l: Seq<InputModel>, k: nat, name: Seq<char>)
    ensures
        run_len(l, k, name) <= l.len(),
        forall|i: int|
            0 <= i < run_len(l, k, name) ==> (#[trigger] l[i]).0.len() > k + 1 && l[i].0[k as int]
                == name,
        run_len(l, k, name) < l.len() ==> !(l[run_len(l, k, name) as int].0.len() > k + 1
            && l[run_len(l, k, name) as int].0[k as int] == name),
    decreases l.len(),
{
    if l.len() > 0 && l[0].0.len() > k + 1 && l[0].0[k as int] == name {
        lemma_run_len(l.drop_first(), k, name);
        assert forall|i: int| 0 <= i < run_len(l, k, name) implies (#[trigger] l[i]).0.len() > k
            + 1 && l[i].0[k as int] == name by {
            if i > 0 {
                assert(l[i] == l.drop_first()[i - 1]);
            }
        }
        if run_len(l, k, name) < l.len() {
            assert(l[run_len(l, k, name) as int] == l.drop_first()[run_len(
                l.drop_first(),
                k,
                name,
            ) as int]);
        }
    }
}

/// The bytes a directory at depth `k` feeds to its hash: the records of its children.
#[verifier::opaque]
pub open spec fn dir_records(l: Seq<InputModel>, k: nat) -> Seq<u8>
    decreases weight(l, k),
{
    if l.len() == 0 {
        Seq::empty()
    } else if l[0].0.len() <= k + 1 {
        proof {
            lemma_weight_split(l, k, 1);
            assert(l.skip(1) == l.drop_first());
        }
        child_record(l[0].0[k as int], effective_hash(l[0].1)) + dir_records(l.drop_first(), k)
    } else {
        let name = l[0].0[k as int];
        let n = run_len(l, k, name);
        proof {
            lemma_run_len(l, k, name);
            lemma_weight_split(l, k, n as int);
            assert forall|i: int| 0 <= i < l.take(n as int).len() implies (#[trigger] l.take(
                n as int,
            )[i]).0.len() > k + 1 by {
                assert(l.take(n as int)[i] == l[i]);
            }
            lemma_weight_deeper(l.take(n as int), k);
        }
        child_record(name, blake3_digest(dir_records(l.take(n as int), k + 1))@) + dir_records(
            l.skip(n as int),
            k,
        )
    }
}

/// The Merkle hash of a directory at depth `k` holding the entries `l`.
pub open spec fn dir_hash(l: Seq<InputModel>, k: nat) -> Seq<u8> {
    blake3_digest(dir_records(l, k))@
}

/// Path components joined by `/`.
pub open spec fn join_path(c: Seq<Seq<char>>) -> Seq<char>
    decreases c.len(),
{
    if c.len() == 0 {
        Seq::empty()
    } else if c.len() == 1 {
        c[0]
    } else {
        join_path(c.drop_last()) + seq!['/'] + c.last()
    }
}

/// The manifest path of a file: `./` and its components joined by `/`.
pub open spec fn file_path(c: Seq<Seq<char>>) -> Seq<char> {
    seq!['.', '/'] + join_path(c)
}

/// The manifest path of a directory: `./` for the root, else `./`, the components joined
/// by `/`, and a trailing `/`.
pub open spec fn dir_path(c: Seq<Seq<char>>) -> Seq<char> {
    if c.len() == 0 {
        seq!['.', '/']
    } else {
        seq!['.', '/'] + join_path(c) + seq!['/']
    }
}

/// The manifest kind of a file entry.
pub open spec fn file_entry_type(h: FileHash) -> EntryType {
    match h {
        FileHash::Blake3(_) => EntryType::Blake3,
        FileHash::Dataless(_) => EntryType::Dataless,
        FileHash::Error(_) => EntryType::Error,
        FileHash::Symlink(_) => EntryType::Symlink,
    }
}

/// The manifest value of a file entry: hex hash, size, error reason or link target.
pub open spec fn file_entry_value(h: FileHash) -> Seq<char> {
    match h {
        FileHash::Blake3(b) => hash_hex(b@),
        FileHash::Dataless(size) => decimal(size as nat),
        FileHash::Error(reason) => reason@,
        FileHash::Symlink(target) => target@,
    }
}

/// The manifest entries below a directory at depth `k` holding `l`, down to `max_depth`
/// components: for each file child within depth its entry; for each child directory the
/// entries below it, then its own entry if within depth.
#[verifier::opaque]
pub open spec fn dir_listing(l: Seq<InputModel>, k: nat, max_depth: nat) -> Seq<EntryView>
    decreases weight(l, k),
{
    if l.len() == 0 {
        Seq::empty()
    } else if l[0].0.len() <= k + 1 {
        proof {
            lemma_weight_split(l, k, 1);
            assert(l.skip(1) == l.drop_first());
        }
        (if l[0].0.len() <= max_depth {
            seq![(file_entry_type(l[0].1), file_entry_value(l[0].1), file_path(l[0].0))]
        } else {
            Seq::empty()
        }) + dir_listing(l.drop_first(), k, max_depth)
    } else {
        let name = l[0].0[k as int];
        let n = run_len(l, k, name);
        proof {
            lemma_run_len(l, k, name);
            lemma_weight_split(l, k, n as int);
            assert forall|i: int| 0 <= i < l.take(n as int).len() implies (#[trigger] l.take(
                n as int,
            )[i]).0.len() > k + 1 by {
                assert(l.take(n as int)[i] == l[i]);
            }
            lemma_weight_deeper(l.take(n as int), k);
        }
        dir_listing(l.take(n as int), k + 1, max_depth) + (if k + 1 <= max_depth {
            seq![
                (
                    EntryType::Dir,
                    hash_hex(dir_hash(l.take(n as int), k + 1)),
                    dir_path(l[0].0.take((k + 1) as int)),
                ),
            ]
        } else {
            Seq::empty()
        }) + dir_listing(l.skip(n as int), k, max_depth)
    }
}

/// The root hash of a tree given by its file entries.
pub open spec fn manifest_root(l: Seq<InputModel>) -> Seq<u8> {
    dir_hash(l, 0)
}

/// All manifest entries of a tree down to `max_depth` components: the root entry, which
/// is always present, and the entries below it.
pub open spec fn manifest_listing(l: Seq<InputModel>, max_depth: nat) -> Seq<EntryView> {
    seq![(EntryType::Dir, hash_hex(manifest_root(l)), dir_path(Seq::empty()))] + dir_listing(
        l,
        0,
        max_depth,
    )
}


/// Compute a synthetic hash for non-Blake3 entries (dataless, error, symlink).
/// Used to include these entries in directory hash computation.
pub fn synthetic_hash(entry_type: &str, value: &str) -> (h: [u8; 32])
    ensures
        h@ == synthetic_digest(entry_type@, value@),
{
    let mut v = chars_of(entry_type);
    v.push(':');
    push_str(&mut v, value);
    assert(v@ == entry_type@ + seq![':'] + value@);
    let input = string_of(&v);
    let bytes = input.as_str().as_bytes();
    assert(bytes@ == encode_utf8(input@));
    blake3_hash(bytes)
}

/// The text a file's metadata is hashed as: its size, a colon, and its modification time
/// as seconds, a dot and nanoseconds.
pub open spec fn metadata_text(size: u64, modified_secs: u64, modified_nanos: u32) -> Seq<char> {
    decimal(size as nat) + seq![':'] + decimal(modified_secs as nat) + seq!['.'] + decimal(
        modified_nanos as nat,
    )
}

/// The hash of a file by its metadata only (the fast mode): the synthetic hash of kind
/// `metadata` of its size and modification time.
pub fn metadata_hash(size: u64, modified_secs: u64, modified_nanos: u32) -> (h: [u8; 32])
    ensures
        h@ == synthetic_digest("metadata"@, metadata_text(size, modified_secs, modified_nanos)),
{
    let mut v: Vec<char> = Vec::new();
    crate::text::push_decimal(&mut v, size);
    v.push(':');
    crate::text::push_decimal(&mut v, modified_secs);
    v.push('.');
    crate::text::push_decimal(&mut v, modified_nanos as u64);
    assert(v@ =~= metadata_text(size, modified_secs, modified_nanos));
    let text = string_of(&v);
    synthetic_hash("metadata", text.as_str())
}

/// The hash a file entry contributes to its directory.
fn effective_hash_of(h: &FileHash) -> (r: [u8; 32])
    ensures
        r@ == effective_hash(*h),
{
    match h {
        FileHash::Blake3(b) => *b,
        FileHash::Dataless(size) => {
            let text = decimal_string(*size);
            synthetic_hash("dataless", text.as_str())
        },
        FileHash::Error(reason) => synthetic_hash("error", reason.as_str()),
        FileHash::Symlink(target) => synthetic_hash("symlink", target.as_str()),
    }
}

/// Feed a child entry (name + hash) into a directory hasher.
fn feed_child(hasher: &mut blake3::Hasher, name: &str, hash: &[u8; 32])
    ensures
        hasher_input(*final(hasher)) == hasher_input(*old(hasher)) + child_record(name@, hash@),
{
    hasher_update(hasher, name.as_bytes());
    let zero: [u8; 1] = [0u8];
    hasher_update(hasher, zero.as_slice());
    hasher_update(hasher, hash.as_slice());
    assert(zero@ == seq![0u8]);
}

/// `./` and the first `n` components joined by `/`, with a trailing `/` for a directory
/// below the root.
fn components_to_path(components: &[String], n: usize, is_dir: bool) -> (p: String)
    requires
        n <= components@.len(),
    ensures
        is_dir ==> p@ == dir_path(components_view(components@).take(n as int)),
        !is_dir ==> p@ == file_path(components_view(components@).take(n as int)),
{
    let ghost c = components_view(components@);
    let mut out: Vec<char> = Vec::new();
    out.push('.');
    out.push('/');
    let mut i: usize = 0;
    while i < n
        invariant
            i <= n <= components@.len(),
            c == components_view(components@),
            out@ == seq!['.', '/'] + join_path(c.take(i as int)),
        decreases n - i,
    {
        let ghost before = out@;
        if i > 0 {
            out.push('/');
        }
        push_str(&mut out, components[i].as_str());
        proof {
            assert(c.take(i + 1).drop_last() == c.take(i as int));
            assert(c.take(i + 1).last() == components@[i as int]@);
            if i == 0 {
                assert(join_path(c.take(1)) == c.take(1)[0]);
            }
            assert(out@ == seq!['.', '/'] + join_path(c.take(i + 1)));
        }
        i = i + 1;
    }
    if is_dir && n > 0 {
        out.push('/');
    }
    string_of(&out)
}

/// The manifest entry of a file.
fn file_entry(components: &[String], file_hash: &FileHash) -> (e: FlatEntry)
    ensures
        e@ == (
            file_entry_type(*file_hash),
            file_entry_value(*file_hash),
            file_path(components_view(components@)),
        ),
{
    let path = components_to_path(components, components.len(), false);
    assert(components_view(components@).take(components@.len() as int) == components_view(
        components@,
    ));
    let (entry_type, value) = match file_hash {
        FileHash::Blake3(h) => (EntryType::Blake3, hash_to_hex(h)),
        FileHash::Dataless(size) => (EntryType::Dataless, decimal_string(*size)),
        FileHash::Error(reason) => (EntryType::Error, reason.clone()),
        FileHash::Symlink(target) => (EntryType::Symlink, target.clone()),
    };
    FlatEntry { entry_type, value, path }
}


/// Hashing and listing a directory whose first entry is a file directly in it.
proof fn lemma_file_step(l: Seq<InputModel>, k: nat, d: nat)
    requires
        l.len() > 0,
        l[0].0.len() <= k + 1,
    ensures
        dir_records(l, k) == child_record(l[0].0[k as int], effective_hash(l[0].1)) + dir_records(
            l.drop_first(),
            k,
        ),
        dir_listing(l, k, d) == (if l[0].0.len() <= d {
            seq![(file_entry_type(l[0].1), file_entry_value(l[0].1), file_path(l[0].0))]
        } else {
            Seq::<EntryView>::empty()
        }) + dir_listing(l.drop_first(), k, d),
        weight(l.drop_first(), k) < weight(l, k),
{
    reveal(dir_records);
    reveal(dir_listing);
}

/// Hashing and listing a directory whose first entry lies below a child directory.
proof fn lemma_dir_step(l: Seq<InputModel>, k: nat, d: nat, n: int)
    requires
        l.len() > 0,
        l[0].0.len() > k + 1,
        run_len(l, k, l[0].0[k as int]) == n,
    ensures
        1 <= n <= l.len(),
        dir_records(l, k) == child_record(
            l[0].0[k as int],
            dir_hash(l.take(n), k + 1),
        ) + dir_records(l.skip(n), k),
        dir_listing(l, k, d) == dir_listing(l.take(n), k + 1, d) + (if k + 1 <= d {
            seq![
                (
                    EntryType::Dir,
                    hash_hex(dir_hash(l.take(n), k + 1)),
                    dir_path(l[0].0.take((k + 1) as int)),
                ),
            ]
        } else {
            Seq::<EntryView>::empty()
        }) + dir_listing(l.skip(n), k, d),
        weight(l.skip(n), k) < weight(l, k),
        weight(l.take(n), k + 1) < weight(l, k),
{
    reveal(dir_records);
    reveal(dir_listing);
    lemma_run_len(l, k, l[0].0[k as int]);
    lemma_weight_split(l, k, n);
    assert forall|x: int| 0 <= x < l.take(n).len() implies (#[trigger] l.take(n)[x]).0.len() > k
        + 1 by {
        assert(l.take(n)[x] == l[x]);
    }
    lemma_weight_deeper(l.take(n), k);
}

/// A run of `n` entries below `name`, ended by one that is not, has length `n`.
proof fn lemma_run_len_is(l: Seq<InputModel>, k: nat, name: Seq<char>, n: int)
    requires
        0 <= n <= l.len(),
        forall|x: int| 0 <= x < n ==> (#[trigger] l[x]).0.len() > k + 1 && l[x].0[k as int] == name,
        n < l.len() ==> !(l[n].0.len() > k + 1 && l[n].0[k as int] == name),
    ensures
        run_len(l, k, name) == n,
    decreases n,
{
    if n > 0 {
        assert forall|x: int| 0 <= x < n - 1 implies (#[trigger] l.drop_first()[x]).0.len() > k + 1
            && l.drop_first()[x].0[k as int] == name by {
            assert(l.drop_first()[x] == l[x + 1]);
        }
        if n - 1 < l.drop_first().len() {
            assert(l.drop_first()[n - 1] == l[n]);
        }
        lemma_run_len_is(l.drop_first(), k, name, n - 1);
    }
}

/// Hashes the directory at depth `k` whose entries are `entries[lo..hi]`, and appends the
/// manifest entries below it to `out`.
fn hash_dir(
    entries: &[(Vec<String>, FileHash)],
    lo: usize,
    hi: usize,
    k: usize,
    max_depth: usize,
    out: &mut Vec<FlatEntry>,
) -> (h: [u8; 32])
    requires
        lo <= hi <= entries@.len(),
        forall|x: int| lo <= x < hi ==> (#[trigger] entries@[x]).0@.len() > k,
    ensures
        h@ == dir_hash(input_model(entries@).subrange(lo as int, hi as int), k as nat),
        flat_views(final(out)@) == flat_views(old(out)@) + dir_listing(
            input_model(entries@).subrange(lo as int, hi as int),
            k as nat,
            max_depth as nat,
        ),
    decreases weight(input_model(entries@).subrange(lo as int, hi as int), k as nat),
{
    let ghost m = input_model(entries@);
    let ghost kk = k as nat;
    let ghost d = max_depth as nat;
    let ghost whole = m.subrange(lo as int, hi as int);
    let ghost base = flat_views(out@);
    let ghost mut acc: Seq<EntryView> = Seq::empty();
    let mut hasher = hasher_new();
    let mut i = lo;
    assert(whole == m.subrange(lo as int, hi as int));
    assert(dir_records(whole, kk) == hasher_input(hasher) + dir_records(whole, kk));
    assert(dir_listing(whole, kk, d) == acc + dir_listing(whole, kk, d));
    assert(flat_views(out@) == base + acc);
    while i < hi
        invariant
            lo <= i <= hi <= entries@.len(),
            m == input_model(entries@),
            kk == k as nat,
            d == max_depth as nat,
            whole == m.subrange(lo as int, hi as int),
            forall|x: int| lo <= x < hi ==> (#[trigger] entries@[x]).0@.len() > k,
            dir_records(whole, kk) == hasher_input(hasher) + dir_records(
                m.subrange(i as int, hi as int),
                kk,
            ),
            flat_views(out@) == base + acc,
            dir_listing(whole, kk, d) == acc + dir_listing(m.subrange(i as int, hi as int), kk, d),
            weight(m.subrange(i as int, hi as int), kk) <= weight(whole, kk),
        decreases hi - i,
    {
        let ghost l = m.subrange(i as int, hi as int);
        assert(l[0] == m[i as int]);
        assert(m[i as int] == (components_view(entries@[i as int].0@), entries@[i as int].1));
        let comps = &entries[i].0;
        assert(comps@.len() > k);
        if comps.len() <= k + 1 {
            let eh = effective_hash_of(&entries[i].1);
            let ghost before = hasher_input(hasher);
            feed_child(&mut hasher, comps[k].as_str(), &eh);
            let ghost old_views = flat_views(out@);
            if comps.len() <= max_depth {
                let fe = file_entry(comps.as_slice(), &entries[i].1);
                out.push(fe);
                assert(flat_views(out@) =~= old_views.push(fe@));
            }
            proof {
                lemma_file_step(l, kk, d);
                assert(l.drop_first() == m.subrange(i + 1, hi as int));
                assert(l[0].0[k as int] == comps@[k as int]@);
                let piece = if l[0].0.len() <= d {
                    seq![(file_entry_type(l[0].1), file_entry_value(l[0].1), file_path(l[0].0))]
                } else {
                    Seq::<EntryView>::empty()
                };
                assert(flat_views(out@) == old_views + piece);
                acc = acc + piece;
                assert(hasher_input(hasher) + dir_records(m.subrange(i + 1, hi as int), kk)
                    == before + dir_records(l, kk));
            }
            i = i + 1;
        } else {
            let name = &comps[k];
            let k1 = k + 1;
            let mut j = i + 1;
            while j < hi && entries[j].0.len() > k1 && entries[j].0[k] == *name
                invariant
                    i < j <= hi <= entries@.len(),
                    k1 == k + 1,
                    forall|x: int|
                        i <= x < j ==> (#[trigger] entries@[x]).0@.len() > k + 1
                            && entries@[x].0@[k as int]@ == name@,
                decreases hi - j,
            {
                j = j + 1;
            }
            let ghost n = (j - i) as int;
            proof {
                assert(l[0].0[k as int] == name@);
                assert forall|x: int| 0 <= x < n implies (#[trigger] l[x]).0.len() > kk + 1
                    && l[x].0[k as int] == name@ by {
                    assert(l[x] == m[i + x]);
                    assert(entries@[i + x].0@.len() > k + 1);
                }
                if n < l.len() {
                    assert(l[n] == m[j as int]);
                }
                lemma_run_len_is(l, kk, name@, n);
                lemma_dir_step(l, kk, d, n);
                assert(l.take(n) == m.subrange(i as int, j as int));
                assert(l.skip(n) == m.subrange(j as int, hi as int));
            }
            let ghost views_before = flat_views(out@);
            let h = hash_dir(entries, i, j, k + 1, max_depth, out);
            let ghost views_mid = flat_views(out@);
            if k + 1 <= max_depth {
                let value = hash_to_hex(&h);
                let path = components_to_path(comps.as_slice(), k + 1, true);
                let fe = FlatEntry { entry_type: EntryType::Dir, value, path };
                out.push(fe);
                assert(flat_views(out@) =~= views_mid.push(fe@));
            }
            let ghost before = hasher_input(hasher);
            feed_child(&mut hasher, name.as_str(), &h);
            proof {
                let sub = l.take(n);
                let piece = dir_listing(sub, kk + 1, d) + (if kk + 1 <= d {
                    seq![
                        (
                            EntryType::Dir,
                            hash_hex(dir_hash(sub, kk + 1)),
                            dir_path(l[0].0.take((kk + 1) as int)),
                        ),
                    ]
                } else {
                    Seq::<EntryView>::empty()
                });
                assert(flat_views(out@) == views_before + piece);
                acc = acc + piece;
                assert(hasher_input(hasher) + dir_records(m.subrange(j as int, hi as int), kk)
                    == before + dir_records(l, kk));
            }
            i = j;
        }
    }
    assert(m.subrange(hi as int, hi as int).len() == 0);
    proof {
        reveal(dir_records);
        reveal(dir_listing);
    }
    hasher_finalize(&hasher)
}


/// The entry half of a keyed entry.
pub open spec fn keyed_entry(p: (Vec<Vec<char>>, FlatEntry)) -> FlatEntry {
    p.1
}

/// Whether entries come in path order.
pub open spec fn sorted_by_path(s: Seq<FlatEntry>) -> bool {
    forall|i: int, j: int| 0 <= i < j < s.len() ==> chars_le(#[trigger] s[i].path@, #[trigger] s[j].path@)
}

/// The entries rearranged into path order.
pub fn sort_by_path(v: Vec<FlatEntry>) -> (r: Vec<FlatEntry>)
    ensures
        sorted_by_path(r@),
        r@.to_multiset() == v@.to_multiset(),
        flat_views(r@).to_multiset() == flat_views(v@).to_multiset(),
{
    let ghost orig = v@;
    let mut v = v;
    let mut keyed: Vec<(Vec<Vec<char>>, FlatEntry)> = Vec::new();
    while v.len() > 0
        invariant
            forall|x: int|
                0 <= x < keyed@.len() ==> key_view((#[trigger] keyed@[x]).0@) == seq![
                    keyed@[x].1.path@,
                ],
            keyed@.map_values(|p: (Vec<Vec<char>>, FlatEntry)| keyed_entry(p)).to_multiset().add(
                v@.to_multiset(),
            ) == orig.to_multiset(),
        decreases v@.len(),
    {
        let ghost old_v = v@;
        let ghost old_k = keyed@;
        let e = v.pop().unwrap();
        assert(old_v == v@.push(e));
        let key = vec![chars_of(e.path.as_str())];
        assert(key_view(key@) =~= seq![e.path@]);
        keyed.push((key, e));
        assert(keyed@.map_values(|p: (Vec<Vec<char>>, FlatEntry)| keyed_entry(p)) =~= old_k.map_values(
            |p: (Vec<Vec<char>>, FlatEntry)| keyed_entry(p),
        ).push(e));
    }
    assert(v@.to_multiset() =~= vstd::multiset::Multiset::empty());
    let ghost keyed_all = keyed@;
    let sorted = sort_by_key(keyed);
    proof {
        lemma_map_same_elements(
            sorted@,
            keyed_all,
            |p: (Vec<Vec<char>>, FlatEntry)| keyed_entry(p),
        );
        assert forall|x: int| 0 <= x < sorted@.len() implies key_view(
            (#[trigger] sorted@[x]).0@,
        ) == seq![sorted@[x].1.path@] by {
            assert(sorted@.to_multiset().count(sorted@[x]) > 0);
            assert(keyed_all.contains(sorted@[x]));
        }
    }
    let ghost sorted_all = sorted@;
    let mut rev = reversed(sorted);
    let mut r: Vec<FlatEntry> = Vec::new();
    while rev.len() > 0
        invariant
            rev@.len() + r@.len() == sorted_all.len(),
            forall|x: int| 0 <= x < rev@.len() ==> #[trigger] rev@[x] == sorted_all[sorted_all.len() - 1 - x],
            forall|x: int| 0 <= x < r@.len() ==> #[trigger] r@[x] == sorted_all[x].1,
        decreases rev@.len(),
    {
        let ghost old_rev = rev@;
        let p = rev.pop().unwrap();
        assert(p == old_rev[old_rev.len() - 1]);
        assert forall|x: int| 0 <= x < rev@.len() implies #[trigger] rev@[x] == sorted_all[sorted_all.len() - 1 - x] by {
            assert(rev@[x] == old_rev[x]);
        }
        r.push(p.1);
    }
    proof {
        assert(r@ =~= sorted_all.map_values(|p: (Vec<Vec<char>>, FlatEntry)| keyed_entry(p)));
        assert forall|i: int, j: int| 0 <= i < j < r@.len() implies chars_le(
            #[trigger] r@[i].path@,
            #[trigger] r@[j].path@,
        ) by {
            assert(key_le(key_view(sorted_all[i].0@), key_view(sorted_all[j].0@)));
            lemma_key_le_single(r@[i].path@, r@[j].path@);
        }
        let snd = |p: (Vec<Vec<char>>, FlatEntry)| keyed_entry(p);
        assert(keyed_all.map_values(snd).to_multiset().add(vstd::multiset::Multiset::empty())
            =~= keyed_all.map_values(snd).to_multiset());
        assert(r@.to_multiset() == orig.to_multiset());
        lemma_map_same_elements(r@, orig, |e: FlatEntry| e@);
        assert(flat_views(r@) =~= r@.map_values(|e: FlatEntry| e@));
        assert(flat_views(orig) =~= orig.map_values(|e: FlatEntry| e@));
    }
    r
}

/// Compute Merkle directory hashes and produce manifest entries from sorted file entries.
///
/// Each input entry is a file, given by its path components below the root, with its
/// hash. Directory entries and their hashes are derived from the path structure. Returns
/// the entries down to `max_depth` components, in path order, and the root hash.
pub fn compute_manifest(sorted_entries: &[(Vec<String>, FileHash)], max_depth: usize) -> (res: (
    Vec<FlatEntry>,
    [u8; 32],
))
    requires
        forall|i: int| 0 <= i < sorted_entries@.len() ==> (#[trigger] sorted_entries@[i]).0@.len() >= 1,
    ensures
        res.1@ == manifest_root(input_model(sorted_entries@)),
        sorted_by_path(res.0@),
        flat_views(res.0@).to_multiset() == manifest_listing(
            input_model(sorted_entries@),
            max_depth as nat,
        ).to_multiset(),
{
    let ghost m = input_model(sorted_entries@);
    let mut output: Vec<FlatEntry> = Vec::new();
    let root = hash_dir(sorted_entries, 0, sorted_entries.len(), 0, max_depth, &mut output);
    assert(m.subrange(0, sorted_entries@.len() as int) == m);
    let ghost below = flat_views(output@);
    let mut p: Vec<char> = Vec::new();
    p.push('.');
    p.push('/');
    assert(p@ == seq!['.', '/']);
    let root_entry = FlatEntry {
        entry_type: EntryType::Dir,
        value: hash_to_hex(&root),
        path: string_of(&p),
    };
    output.push(root_entry);
    proof {
        assert(flat_views(output@) =~= below.push(root_entry@));
        let head = seq![root_entry@];
        assert(root_entry@ == (EntryType::Dir, hash_hex(manifest_root(m)), dir_path(Seq::empty())));
        assert(below == dir_listing(m, 0, max_depth as nat));
        assert(manifest_listing(m, max_depth as nat) == head + below);
        assert(below.push(root_entry@) == below + head);
        vstd::seq_lib::lemma_seq_union_to_multiset_commutative(head, below);
    }
    let sorted = sort_by_path(output);
    (sorted, root)
}

/// An element of a concatenation is an element of one of its parts.
proof fn lemma_contains_concat<A>(a: Seq<A>, b: Seq<A>, e: A)
    ensures
        (a + b).contains(e) <==> a.contains(e) || b.contains(e),
{
    if (a + b).contains(e) {
        let i = choose|i: int| 0 <= i < (a + b).len() && (a + b)[i] == e;
        if i < a.len() {
            assert(a[i] == e);
        } else {
            assert(b[i - a.len()] == e);
        }
    }
    if a.contains(e) {
        let i = choose|i: int| 0 <= i < a.len() && a[i] == e;
        assert((a + b)[i] == e);
    }
    if b.contains(e) {
        let i = choose|i: int| 0 <= i < b.len() && b[i] == e;
        assert((a + b)[a.len() + i] == e);
    }
}

/// Every entry listed down to depth `d1` is listed down to any greater depth `d2`.
proof fn lemma_dir_listing_depth(l: Seq<InputModel>, k: nat, d1: nat, d2: nat, e: EntryView)
    requires
        d1 <= d2,
        dir_listing(l, k, d1).contains(e),
    ensures
        dir_listing(l, k, d2).contains(e),
    decreases weight(l, k),
{
    if l.len() == 0 {
        reveal(dir_listing);
    } else if l[0].0.len() <= k + 1 {
        lemma_file_step(l, k, d1);
        lemma_file_step(l, k, d2);
        let p1 = if l[0].0.len() <= d1 {
            seq![(file_entry_type(l[0].1), file_entry_value(l[0].1), file_path(l[0].0))]
        } else {
            Seq::<EntryView>::empty()
        };
        let p2 = if l[0].0.len() <= d2 {
            seq![(file_entry_type(l[0].1), file_entry_value(l[0].1), file_path(l[0].0))]
        } else {
            Seq::<EntryView>::empty()
        };
        lemma_contains_concat(p1, dir_listing(l.drop_first(), k, d1), e);
        lemma_contains_concat(p2, dir_listing(l.drop_first(), k, d2), e);
        if dir_listing(l.drop_first(), k, d1).contains(e) {
            lemma_dir_listing_depth(l.drop_first(), k, d1, d2, e);
        } else {
            assert(p1.contains(e));
            assert(p1 == p2);
        }
    } else {
        let n = run_len(l, k, l[0].0[k as int]) as int;
        lemma_dir_step(l, k, d1, n);
        lemma_dir_step(l, k, d2, n);
        let sub = l.take(n);
        let entry = (
            EntryType::Dir,
            hash_hex(dir_hash(sub, k + 1)),
            dir_path(l[0].0.take((k + 1) as int)),
        );
        let m1 = if k + 1 <= d1 {
            seq![entry]
        } else {
            Seq::<EntryView>::empty()
        };
        let m2 = if k + 1 <= d2 {
            seq![entry]
        } else {
            Seq::<EntryView>::empty()
        };
        let a1 = dir_listing(sub, k + 1, d1);
        let a2 = dir_listing(sub, k + 1, d2);
        let c1 = dir_listing(l.skip(n), k, d1);
        let c2 = dir_listing(l.skip(n), k, d2);
        lemma_contains_concat(a1 + m1, c1, e);
        lemma_contains_concat(a1, m1, e);
        lemma_contains_concat(a2 + m2, c2, e);
        lemma_contains_concat(a2, m2, e);
        if a1.contains(e) {
            lemma_dir_listing_depth(sub, k + 1, d1, d2, e);
        } else if m1.contains(e) {
            assert(m1 == m2);
        } else {
            lemma_dir_listing_depth(l.skip(n), k, d1, d2, e);
        }
    }
}

/// Whether every path component of the file entries is a non-empty name.
pub open spec fn components_named(l: Seq<InputModel>) -> bool {
    forall|i: int, j: int| 0 <= i < l.len() && 0 <= j < l[i].0.len() ==> (#[trigger] l[i].0[j]).len() > 0
}

/// Non-empty names joined by `/` are not empty.
proof fn lemma_join_path_nonempty(c: Seq<Seq<char>>)
    requires
        c.len() > 0,
        c[0].len() > 0,
    ensures
        join_path(c).len() > 0,
{
}

/// Every path a directory listing gives begins with `./` and is longer than that.
pub(crate) proof fn lemma_dir_listing_paths(l: Seq<InputModel>, k: nat, d: nat, e: EntryView)
    requires
        forall|i: int| 0 <= i < l.len() ==> (#[trigger] l[i]).0.len() > k,
        components_named(l),
        dir_listing(l, k, d).contains(e),
    ensures
        e.2.len() > 2,
        e.2[0] == '.',
        e.2[1] == '/',
    decreases weight(l, k),
{
    if l.len() == 0 {
        reveal(dir_listing);
    } else if l[0].0.len() <= k + 1 {
        lemma_file_step(l, k, d);
        let p = if l[0].0.len() <= d {
            seq![(file_entry_type(l[0].1), file_entry_value(l[0].1), file_path(l[0].0))]
        } else {
            Seq::<EntryView>::empty()
        };
        let rest = l.drop_first();
        lemma_contains_concat(p, dir_listing(rest, k, d), e);
        if dir_listing(rest, k, d).contains(e) {
            assert forall|i: int| 0 <= i < rest.len() implies (#[trigger] rest[i]).0.len() > k by {
                assert(rest[i] == l[i + 1]);
            }
            assert forall|i: int, j: int| 0 <= i < rest.len() && 0 <= j < rest[i].0.len() implies (
            #[trigger] rest[i].0[j]).len() > 0 by {
                assert(rest[i] == l[i + 1]);
            }
            lemma_dir_listing_paths(rest, k, d, e);
        } else {
            assert(l[0].0[0].len() > 0);
            lemma_join_path_nonempty(l[0].0);
        }
    } else {
        let n = run_len(l, k, l[0].0[k as int]) as int;
        lemma_dir_step(l, k, d, n);
        lemma_run_len(l, k, l[0].0[k as int]);
        let sub = l.take(n);
        let rest = l.skip(n);
        let c = l[0].0.take((k + 1) as int);
        let m = if k + 1 <= d {
            seq![(EntryType::Dir, hash_hex(dir_hash(sub, k + 1)), dir_path(c))]
        } else {
            Seq::<EntryView>::empty()
        };
        lemma_contains_concat(dir_listing(sub, k + 1, d) + m, dir_listing(rest, k, d), e);
        lemma_contains_concat(dir_listing(sub, k + 1, d), m, e);
        if dir_listing(sub, k + 1, d).contains(e) {
            assert forall|i: int| 0 <= i < sub.len() implies (#[trigger] sub[i]).0.len() > k + 1 by {
                assert(sub[i] == l[i]);
            }
            assert forall|i: int, j: int| 0 <= i < sub.len() && 0 <= j < sub[i].0.len() implies (
            #[trigger] sub[i].0[j]).len() > 0 by {
                assert(sub[i] == l[i]);
            }
            lemma_dir_listing_paths(sub, k + 1, d, e);
        } else if m.contains(e) {
            assert(c.len() > 0);
        } else {
            assert forall|i: int| 0 <= i < rest.len() implies (#[trigger] rest[i]).0.len() > k by {
                assert(rest[i] == l[i + n]);
            }
            assert forall|i: int, j: int| 0 <= i < rest.len() && 0 <= j < rest[i].0.len() implies (
            #[trigger] rest[i].0[j]).len() > 0 by {
                assert(rest[i] == l[i + n]);
            }
            lemma_dir_listing_paths(rest, k, d, e);
        }
    }
}

/// The output depth only chooses how much of the tree is listed: the root hash and the
/// root entry are the same at every depth, and every entry listed down to a depth is
/// listed, unchanged, down to any greater depth.
pub proof fn lemma_depth_only_filters(l: Seq<InputModel>, d1: nat, d2: nat)
    requires
        d1 <= d2,
    ensures
        manifest_listing(l, d1)[0] == manifest_listing(l, d2)[0],
        manifest_listing(l, d1)[0] == (EntryType::Dir, hash_hex(manifest_root(l)), dir_path(
            Seq::empty(),
        )),
        forall|e: EntryView| #[trigger]
            manifest_listing(l, d1).contains(e) ==> manifest_listing(l, d2).contains(e),
{
    let root = seq![(EntryType::Dir, hash_hex(manifest_root(l)), dir_path(Seq::<Seq<char>>::empty()))];
    assert forall|e: EntryView| #[trigger]
        manifest_listing(l, d1).contains(e) implies manifest_listing(l, d2).contains(e) by {
        lemma_contains_concat(root, dir_listing(l, 0, d1), e);
        lemma_contains_concat(root, dir_listing(l, 0, d2), e);
        if dir_listing(l, 0, d1).contains(e) {
            lemma_dir_listing_depth(l, 0, d1, d2, e);
        }
    }
}

/// The manifest entry of file entry `x`.
pub open spec fn file_listing_entry(x: InputModel) -> EntryView {
    (file_entry_type(x.1), file_entry_value(x.1), file_path(x.0))
}

/// A directory listing holds the entry of each of its files within the depth.
proof fn lemma_dir_listing_has_file(l: Seq<InputModel>, k: nat, d: nat, i: int)
    requires
        forall|j: int| 0 <= j < l.len() ==> (#[trigger] l[j]).0.len() > k,
        0 <= i < l.len(),
        l[i].0.len() <= d,
    ensures
        dir_listing(l, k, d).contains(file_listing_entry(l[i])),
    decreases weight(l, k),
{
    let e = file_listing_entry(l[i]);
    if l[0].0.len() <= k + 1 {
        lemma_file_step(l, k, d);
        let p = if l[0].0.len() <= d {
            seq![(file_entry_type(l[0].1), file_entry_value(l[0].1), file_path(l[0].0))]
        } else {
            Seq::<EntryView>::empty()
        };
        let rest = l.drop_first();
        if i == 0 {
            assert(p[0] == e);
            lemma_contains_concat(p, dir_listing(rest, k, d), e);
        } else {
            assert forall|j: int| 0 <= j < rest.len() implies (#[trigger] rest[j]).0.len() > k by {
                assert(rest[j] == l[j + 1]);
            }
            assert(rest[i - 1] == l[i]);
            lemma_dir_listing_has_file(rest, k, d, i - 1);
            lemma_contains_concat(p, dir_listing(rest, k, d), e);
        }
    } else {
        let n = run_len(l, k, l[0].0[k as int]) as int;
        lemma_dir_step(l, k, d, n);
        lemma_run_len(l, k, l[0].0[k as int]);
        let sub = l.take(n);
        let rest = l.skip(n);
        let m = if k + 1 <= d {
            seq![
                (
                    EntryType::Dir,
                    hash_hex(dir_hash(sub, k + 1)),
                    dir_path(l[0].0.take((k + 1) as int)),
                ),
            ]
        } else {
            Seq::<EntryView>::empty()
        };
        if i < n {
            assert forall|j: int| 0 <= j < sub.len() implies (#[trigger] sub[j]).0.len() > k + 1 by {
                assert(sub[j] == l[j]);
            }
            assert(sub[i] == l[i]);
            lemma_dir_listing_has_file(sub, k + 1, d, i);
            lemma_contains_concat(dir_listing(sub, k + 1, d), m, e);
        } else {
            assert forall|j: int| 0 <= j < rest.len() implies (#[trigger] rest[j]).0.len() > k by {
                assert(rest[j] == l[j + n]);
            }
            assert(rest[i - n] == l[i]);
            lemma_dir_listing_has_file(rest, k, d, i - n);
        }
        lemma_contains_concat(dir_listing(sub, k + 1, d) + m, dir_listing(rest, k, d), e);
    }
}

/// No file is skipped: the listing down to depth `d` holds, for every file whose path has
/// at most `d` components, an entry with its kind, its value and its path.
pub proof fn lemma_every_file_listed(l: Seq<InputModel>, d: nat, i: int)
    requires
        forall|j: int| 0 <= j < l.len() ==> (#[trigger] l[j]).0.len() > 0,
        0 <= i < l.len(),
        l[i].0.len() <= d,
    ensures
        manifest_listing(l, d).contains(file_listing_entry(l[i])),
{
    lemma_dir_listing_has_file(l, 0, d, i);
    let root = seq![(EntryType::Dir, hash_hex(manifest_root(l)), dir_path(Seq::<Seq<char>>::empty()))];
    lemma_contains_concat(root, dir_listing(l, 0, d), file_listing_entry(l[i]));
}

/// Whether entries come in path order, as values.
pub open spec fn views_sorted(s: Seq<EntryView>) -> bool {
    forall|i: int, j: int| 0 <= i < j < s.len() ==> chars_le(#[trigger] s[i].2, #[trigger] s[j].2)
}

/// Whether no two entries share a path.
pub open spec fn paths_distinct(s: Seq<EntryView>) -> bool {
    forall|i: int, j: int| 0 <= i < j < s.len() ==> #[trigger] s[i].2 != #[trigger] s[j].2
}

/// Two path-ordered sequences of the same entries, no two with one path, are the same.
proof fn lemma_views_sorted_unique(a: Seq<EntryView>, b: Seq<EntryView>)
    requires
        views_sorted(a),
        views_sorted(b),
        paths_distinct(a),
        a.to_multiset() == b.to_multiset(),
    ensures
        a == b,
    decreases a.len(),
{
    a.to_multiset_ensures();
    b.to_multiset_ensures();
    assert(a.len() == b.len());
    if a.len() > 0 {
        let x = a[0];
        let y = b[0];
        assert(a.to_multiset().count(x) > 0);
        assert(b.contains(x));
        let j = choose|j: int| 0 <= j < b.len() && b[j] == x;
        if j > 0 {
            assert(chars_le(b[0].2, b[j].2));
        } else {
            crate::order::lemma_chars_le_reflexive(y.2);
        }
        assert(b.to_multiset().count(y) > 0);
        assert(a.contains(y));
        let i = choose|i: int| 0 <= i < a.len() && a[i] == y;
        if i > 0 {
            assert(chars_le(a[0].2, a[i].2));
        } else {
            crate::order::lemma_chars_le_reflexive(x.2);
        }
        crate::order::lemma_chars_le_antisymmetric(x.2, y.2);
        if i > 0 {
            assert(a[0].2 != a[i].2);
        }
        assert(x == y);
        let a2 = a.drop_first();
        let b2 = b.drop_first();
        assert(a2 == a.remove(0));
        assert(b2 == b.remove(0));
        assert(a2.to_multiset() == a.to_multiset().remove(x));
        assert(b2.to_multiset() == b.to_multiset().remove(y));
        assert forall|p: int, q: int| 0 <= p < q < a2.len() implies chars_le(
            #[trigger] a2[p].2,
            #[trigger] a2[q].2,
        ) by {
            assert(a2[p] == a[p + 1] && a2[q] == a[q + 1]);
        }
        assert forall|p: int, q: int| 0 <= p < q < b2.len() implies chars_le(
            #[trigger] b2[p].2,
            #[trigger] b2[q].2,
        ) by {
            assert(b2[p] == b[p + 1] && b2[q] == b[q + 1]);
        }
        assert forall|p: int, q: int| 0 <= p < q < a2.len() implies #[trigger] a2[p].2
            != #[trigger] a2[q].2 by {
            assert(a2[p] == a[p + 1] && a2[q] == a[q + 1]);
        }
        lemma_views_sorted_unique(a2, b2);
        assert(a =~= seq![x] + a2);
        assert(b =~= seq![y] + b2);
    }
}

/// A rearrangement of entries no two of which share a path has no two sharing a path.
proof fn lemma_distinct_by_multiset(m: Seq<EntryView>, v: Seq<EntryView>)
    requires
        paths_distinct(m),
        v.to_multiset() == m.to_multiset(),
    ensures
        paths_distinct(v),
{
    v.to_multiset_ensures();
    m.to_multiset_ensures();
    assert forall|i: int, j: int| 0 <= i < j < v.len() implies #[trigger] v[i].2 != #[trigger] v[j].2 by {
        if v[i].2 == v[j].2 {
            let x = v[i];
            let y = v[j];
            assert(v[i] == x && v[j] == y);
            assert(v.contains(x));
            assert(v.contains(y));
            assert(v.to_multiset().count(x) > 0);
            assert(v.to_multiset().count(y) > 0);
            assert(m.to_multiset().count(x) > 0);
            assert(m.to_multiset().count(y) > 0);
            assert(m.contains(x));
            assert(m.contains(y));
            let p = choose|p: int| 0 <= p < m.len() && m[p] == x;
            let q = choose|q: int| 0 <= q < m.len() && m[q] == y;
            if x != y {
                assert(p != q);
                if p < q {
                    assert(m[p].2 != m[q].2);
                } else {
                    assert(m[q].2 != m[p].2);
                }
            } else {
                let vr = v.remove(i);
                vr.to_multiset_ensures();
                assert(vr.to_multiset() == v.to_multiset().remove(x));
                assert(vr[j - 1] == x);
                assert(vr.contains(x));
                assert(vr.to_multiset().count(x) > 0);
                assert(v.to_multiset().count(x) >= 2);
                let mr = m.remove(p);
                mr.to_multiset_ensures();
                assert(mr.to_multiset() == m.to_multiset().remove(x));
                assert(mr.to_multiset().count(x) >= 1);
                assert(mr.contains(x));
                let r = choose|r: int| 0 <= r < mr.len() && mr[r] == x;
                let q2 = if r < p { r } else { r + 1 };
                assert(m[q2] == x);
                assert(q2 != p);
                if p < q2 {
                    assert(m[p].2 != m[q2].2);
                } else {
                    assert(m[q2].2 != m[p].2);
                }
            }
        }
    }
}

/// The manifest of a tree is determined: any two listings in path order of the entries
/// of a tree down to a depth are the same, whenever no two of those entries share a path
/// (which holds when no two input files share a path).
pub proof fn lemma_manifest_deterministic(
    l: Seq<InputModel>,
    max_depth: nat,
    a: Seq<FlatEntry>,
    b: Seq<FlatEntry>,
)
    requires
        paths_distinct(manifest_listing(l, max_depth)),
        sorted_by_path(a),
        sorted_by_path(b),
        flat_views(a).to_multiset() == manifest_listing(l, max_depth).to_multiset(),
        flat_views(b).to_multiset() == manifest_listing(l, max_depth).to_multiset(),
    ensures
        flat_views(a) == flat_views(b),
{
    let va = flat_views(a);
    let vb = flat_views(b);
    let m = manifest_listing(l, max_depth);
    assert forall|i: int, j: int| 0 <= i < j < va.len() implies chars_le(
        #[trigger] va[i].2,
        #[trigger] va[j].2,
    ) by {
        assert(va[i] == a[i]@ && va[j] == a[j]@);
    }
    assert forall|i: int, j: int| 0 <= i < j < vb.len() implies chars_le(
        #[trigger] vb[i].2,
        #[trigger] vb[j].2,
    ) by {
        assert(vb[i] == b[i]@ && vb[j] == b[j]@);
    }
    lemma_distinct_by_multiset(m, va);
    lemma_views_sorted_unique(va, vb);
}

/// Whether input entries come in the order of their path components.
pub open spec fn inputs_sorted(s: Seq<InputModel>) -> bool {
    forall|i: int, j: int| 0 <= i < j < s.len() ==> key_le(#[trigger] s[i].0, #[trigger] s[j].0)
}

/// Whether no two input entries share a path.
pub open spec fn inputs_distinct(s: Seq<InputModel>) -> bool {
    forall|i: int, j: int| 0 <= i < j < s.len() ==> #[trigger] s[i].0 != #[trigger] s[j].0
}

/// The components-and-hash half of a keyed input entry.
pub open spec fn keyed_input(p: (Vec<Vec<char>>, (Vec<String>, FileHash))) -> (Vec<String>, FileHash) {
    p.1
}

/// The file entries rearranged into the order of their path components, the order in
/// which a walk's entries are handed to `compute_manifest`.
pub fn sort_by_components(entries: Vec<(Vec<String>, FileHash)>) -> (r: Vec<(Vec<String>, FileHash)>)
    ensures
        inputs_sorted(input_model(r@)),
        input_model(r@).to_multiset() == input_model(entries@).to_multiset(),
        r@.to_multiset() == entries@.to_multiset(),
        forall|i: int| 0 <= i < r@.len() ==> entries@.contains(#[trigger] r@[i]),
{
    let ghost orig = entries@;
    let mut entries = entries;
    let mut keyed: Vec<(Vec<Vec<char>>, (Vec<String>, FileHash))> = Vec::new();
    while entries.len() > 0
        invariant
            forall|x: int|
                0 <= x < keyed@.len() ==> key_view((#[trigger] keyed@[x]).0@) == components_view(
                    keyed@[x].1.0@,
                ),
            keyed@.map_values(|p: (Vec<Vec<char>>, (Vec<String>, FileHash))| keyed_input(p)).to_multiset().add(
                entries@.to_multiset(),
            ) == orig.to_multiset(),
        decreases entries@.len(),
    {
        let ghost old_e = entries@;
        let ghost old_k = keyed@;
        let e = entries.pop().unwrap();
        assert(old_e == entries@.push(e));
        let mut key: Vec<Vec<char>> = Vec::new();
        let mut c: usize = 0;
        while c < e.0.len()
            invariant
                c <= e.0@.len(),
                key_view(key@) == components_view(e.0@).take(c as int),
            decreases e.0@.len() - c,
        {
            let ghost before = key_view(key@);
            let ch = chars_of(e.0[c].as_str());
            assert(ch@ == components_view(e.0@)[c as int]);
            key.push(ch);
            assert(key_view(key@) =~= before.push(ch@));
            assert(key_view(key@) =~= components_view(e.0@).take(c + 1));
            c = c + 1;
        }
        assert(components_view(e.0@).take(e.0@.len() as int) =~= components_view(e.0@));
        keyed.push((key, e));
        assert(keyed@.map_values(|p: (Vec<Vec<char>>, (Vec<String>, FileHash))| keyed_input(p))
            =~= old_k.map_values(|p: (Vec<Vec<char>>, (Vec<String>, FileHash))| keyed_input(p)).push(
            keyed@.last().1,
        ));
    }
    assert(entries@.to_multiset() =~= vstd::multiset::Multiset::empty());
    let ghost keyed_all = keyed@;
    let sorted = sort_by_key(keyed);
    proof {
        lemma_map_same_elements(
            sorted@,
            keyed_all,
            |p: (Vec<Vec<char>>, (Vec<String>, FileHash))| keyed_input(p),
        );
        assert forall|x: int| 0 <= x < sorted@.len() implies key_view((#[trigger] sorted@[x]).0@)
            == components_view(sorted@[x].1.0@) by {
            assert(sorted@.to_multiset().count(sorted@[x]) > 0);
            assert(keyed_all.contains(sorted@[x]));
        }
    }
    let ghost sorted_all = sorted@;
    let mut rev = reversed(sorted);
    let mut r: Vec<(Vec<String>, FileHash)> = Vec::new();
    while rev.len() > 0
        invariant
            rev@.len() + r@.len() == sorted_all.len(),
            forall|x: int| 0 <= x < rev@.len() ==> #[trigger] rev@[x] == sorted_all[sorted_all.len() - 1 - x],
            forall|x: int| 0 <= x < r@.len() ==> #[trigger] r@[x] == sorted_all[x].1,
        decreases rev@.len(),
    {
        let ghost old_rev = rev@;
        let p = rev.pop().unwrap();
        assert(p == old_rev[old_rev.len() - 1]);
        assert forall|x: int| 0 <= x < rev@.len() implies #[trigger] rev@[x] == sorted_all[sorted_all.len() - 1 - x] by {
            assert(rev@[x] == old_rev[x]);
        }
        r.push(p.1);
    }
    proof {
        let snd = |p: (Vec<Vec<char>>, (Vec<String>, FileHash))| keyed_input(p);
        assert(r@ =~= sorted_all.map_values(snd));
        assert(keyed_all.map_values(snd).to_multiset().add(vstd::multiset::Multiset::empty())
            =~= keyed_all.map_values(snd).to_multiset());
        assert(r@.to_multiset() == orig.to_multiset());
        lemma_map_same_elements(r@, orig, |e: (Vec<String>, FileHash)| (components_view(e.0@), e.1));
        assert(input_model(r@) =~= r@.map_values(|e: (Vec<String>, FileHash)| (components_view(e.0@), e.1)));
        assert(input_model(orig) =~= orig.map_values(|e: (Vec<String>, FileHash)| (components_view(e.0@), e.1)));
        let m = input_model(r@);
        assert forall|i: int, j: int| 0 <= i < j < m.len() implies key_le(
            #[trigger] m[i].0,
            #[trigger] m[j].0,
        ) by {
            assert(key_le(key_view(sorted_all[i].0@), key_view(sorted_all[j].0@)));
        }
        r@.to_multiset_ensures();
        orig.to_multiset_ensures();
        assert forall|i: int| 0 <= i < r@.len() implies orig.contains(#[trigger] r@[i]) by {
            assert(r@.contains(r@[i]));
            assert(r@.to_multiset().count(r@[i]) > 0);
        }
    }
    r
}

/// Two input sequences in path order with the same entries, no two sharing a path, are
/// the same sequence.
proof fn lemma_inputs_sorted_unique(a: Seq<InputModel>, b: Seq<InputModel>)
    requires
        inputs_sorted(a),
        inputs_sorted(b),
        inputs_distinct(a),
        a.to_multiset() == b.to_multiset(),
    ensures
        a == b,
    decreases a.len(),
{
    a.to_multiset_ensures();
    b.to_multiset_ensures();
    assert(a.len() == b.len());
    if a.len() > 0 {
        let x = a[0];
        let y = b[0];
        assert(a.to_multiset().count(x) > 0);
        assert(b.contains(x));
        let j = choose|j: int| 0 <= j < b.len() && b[j] == x;
        if j > 0 {
            assert(key_le(b[0].0, b[j].0));
        } else {
            crate::order::lemma_key_le_reflexive(y.0);
        }
        assert(b.to_multiset().count(y) > 0);
        assert(a.contains(y));
        let i = choose|i: int| 0 <= i < a.len() && a[i] == y;
        if i > 0 {
            assert(key_le(a[0].0, a[i].0));
        } else {
            crate::order::lemma_key_le_reflexive(x.0);
        }
        crate::order::lemma_key_le_antisymmetric(x.0, y.0);
        if i > 0 {
            assert(a[0].0 != a[i].0);
        }
        assert(x == y);
        let a2 = a.drop_first();
        let b2 = b.drop_first();
        assert(a2 == a.remove(0));
        assert(b2 == b.remove(0));
        assert(a2.to_multiset() == a.to_multiset().remove(x));
        assert(b2.to_multiset() == b.to_multiset().remove(y));
        assert forall|p: int, q: int| 0 <= p < q < a2.len() implies key_le(
            #[trigger] a2[p].0,
            #[trigger] a2[q].0,
        ) by {
            assert(a2[p] == a[p + 1] && a2[q] == a[q + 1]);
        }
        assert forall|p: int, q: int| 0 <= p < q < b2.len() implies key_le(
            #[trigger] b2[p].0,
            #[trigger] b2[q].0,
        ) by {
            assert(b2[p] == b[p + 1] && b2[q] == b[q + 1]);
        }
        assert forall|p: int, q: int| 0 <= p < q < a2.len() implies #[trigger] a2[p].0
            != #[trigger] a2[q].0 by {
            assert(a2[p] == a[p + 1] && a2[q] == a[q + 1]);
        }
        lemma_inputs_sorted_unique(a2, b2);
        assert(a =~= seq![x] + a2);
        assert(b =~= seq![y] + b2);
    }
}

/// The root hash and the listing of a tree do not depend on the order in which its files
/// were found: any two arrangements of the same file entries, once put in path order, give
/// the same root hash and the same listing at every depth, whenever no two files share a
/// path.
pub proof fn lemma_order_independent(a: Seq<InputModel>, b: Seq<InputModel>, max_depth: nat)
    requires
        inputs_sorted(a),
        inputs_sorted(b),
        inputs_distinct(a),
        a.to_multiset() == b.to_multiset(),
    ensures
        manifest_root(a) == manifest_root(b),
        manifest_listing(a, max_depth) == manifest_listing(b, max_depth),
{
    lemma_inputs_sorted_unique(a, b);
}

/// Two lists of file entries with the same paths in the same order.
pub open spec fn same_paths(a: Seq<InputModel>, b: Seq<InputModel>) -> bool {
    a.len() == b.len() && forall|i: int| 0 <= i < a.len() ==> (#[trigger] a[i]).0 == b[i].0
}

/// Two different hash inputs, of the directory at depth `k` holding the entries
/// `lo..hi` of each of the two lists, have the same BLAKE3 hash: a BLAKE3 collision
/// between inputs the two trees give.
pub open spec fn dir_inputs_collide(a: Seq<InputModel>, b: Seq<InputModel>) -> bool {
    exists|k: nat, lo: int, hi: int|
        0 <= lo <= hi <= a.len() && #[trigger] dir_records(a.subrange(lo, hi), k) != dir_records(
            b.subrange(lo, hi),
            k,
        ) && dir_hash(a.subrange(lo, hi), k) == dir_hash(b.subrange(lo, hi), k)
}

/// Every hash a file contributes to its directory is 32 bytes long.
proof fn lemma_effective_hash_len(h: FileHash)
    ensures
        effective_hash(h).len() == 32,
{
}

/// Two entry lists with the same paths have leading runs of the same length.
proof fn lemma_run_len_same_paths(a: Seq<InputModel>, b: Seq<InputModel>, k: nat, name: Seq<char>)
    requires
        same_paths(a, b),
    ensures
        run_len(a, k, name) == run_len(b, k, name),
{
    lemma_run_len(a, k, name);
    let n = run_len(a, k, name) as int;
    assert forall|x: int| 0 <= x < n implies (#[trigger] b[x]).0.len() > k + 1 && b[x].0[k as int]
        == name by {
        assert(a[x].0 == b[x].0);
    }
    if n < b.len() {
        assert(a[n].0 == b[n].0);
    }
    lemma_run_len_is(b, k, name, n);
}

/// Two records of the same name differ exactly when the hashes, both 32 bytes, differ;
/// records that agree leave the rest of two concatenations to agree.
proof fn lemma_record_concat(
    name: Seq<char>,
    h1: Seq<u8>,
    h2: Seq<u8>,
    r1: Seq<u8>,
    r2: Seq<u8>,
)
    requires
        h1.len() == 32,
        h2.len() == 32,
        child_record(name, h1) + r1 == child_record(name, h2) + r2,
    ensures
        h1 == h2,
        r1 == r2,
{
    let c1 = child_record(name, h1);
    let c2 = child_record(name, h2);
    let p = encode_utf8(name).len() + 1;
    assert(c1.len() == c2.len());
    let t1 = c1 + r1;
    let t2 = c2 + r2;
    assert forall|x: int| 0 <= x < 32 implies h1[x] == h2[x] by {
        assert(c1[p + x] == h1[x]);
        assert(c2[p + x] == h2[x]);
        assert(t1[p + x] == t2[p + x]);
    }
    assert(h1 =~= h2);
    assert(t1.len() == t2.len());
    assert(r1.len() == r2.len());
    assert forall|x: int| 0 <= x < r1.len() implies r1[x] == r2[x] by {
        assert(t1[c1.len() + x] == t2[c1.len() + x]);
    }
    assert(r1 =~= r2);
}

/// A collision found among the inputs of a part of two lists is one of the lists' own.
proof fn lemma_collision_within(a: Seq<InputModel>, b: Seq<InputModel>, lo: int, hi: int)
    requires
        0 <= lo <= hi <= a.len(),
        a.len() == b.len(),
        dir_inputs_collide(a.subrange(lo, hi), b.subrange(lo, hi)),
    ensures
        dir_inputs_collide(a, b),
{
    let sa = a.subrange(lo, hi);
    let sb = b.subrange(lo, hi);
    let (k, x, y) = choose|k: nat, x: int, y: int|
        0 <= x <= y <= sa.len() && #[trigger] dir_records(sa.subrange(x, y), k) != dir_records(
            sb.subrange(x, y),
            k,
        ) && dir_hash(sa.subrange(x, y), k) == dir_hash(sb.subrange(x, y), k);
    assert(sa.subrange(x, y) =~= a.subrange(lo + x, lo + y));
    assert(sb.subrange(x, y) =~= b.subrange(lo + x, lo + y));
    assert(dir_records(a.subrange(lo + x, lo + y), k) != dir_records(b.subrange(lo + x, lo + y), k));
}

/// The hash input of a directory whose entries include a file whose contributed hash
/// changed, with every path kept, changes too, unless BLAKE3 collides on two inputs of
/// directories of the two trees.
proof fn lemma_records_change(a: Seq<InputModel>, b: Seq<InputModel>, k: nat, i: int)
    requires
        same_paths(a, b),
        forall|j: int| 0 <= j < a.len() ==> (#[trigger] a[j]).0.len() > k,
        0 <= i < a.len(),
        effective_hash(a[i].1) != effective_hash(b[i].1),
    ensures
        dir_records(a, k) != dir_records(b, k) || dir_inputs_collide(a, b),
    decreases weight(a, k),
{
    lemma_effective_hash_len(a[0].1);
    lemma_effective_hash_len(b[0].1);
    assert(a[0].0 == b[0].0);
    let name = a[0].0[k as int];
    if a[0].0.len() <= k + 1 {
        lemma_file_step(a, k, 0);
        lemma_file_step(b, k, 0);
        if i > 0 && dir_records(a, k) == dir_records(b, k) {
            lemma_record_concat(
                name,
                effective_hash(a[0].1),
                effective_hash(b[0].1),
                dir_records(a.drop_first(), k),
                dir_records(b.drop_first(), k),
            );
            let a1 = a.drop_first();
            let b1 = b.drop_first();
            assert forall|j: int| 0 <= j < a1.len() implies (#[trigger] a1[j]).0 == b1[j].0 by {
                assert(a1[j] == a[j + 1] && b1[j] == b[j + 1]);
            }
            assert forall|j: int| 0 <= j < a1.len() implies (#[trigger] a1[j]).0.len() > k by {
                assert(a1[j] == a[j + 1]);
            }
            assert(a1[i - 1] == a[i] && b1[i - 1] == b[i]);
            lemma_records_change(a1, b1, k, i - 1);
            assert(a1 == a.subrange(1, a.len() as int));
            assert(b1 == b.subrange(1, b.len() as int));
            lemma_collision_within(a, b, 1, a.len() as int);
        } else if i == 0 && dir_records(a, k) == dir_records(b, k) {
            lemma_record_concat(
                name,
                effective_hash(a[0].1),
                effective_hash(b[0].1),
                dir_records(a.drop_first(), k),
                dir_records(b.drop_first(), k),
            );
        }
    } else {
        let n = run_len(a, k, name) as int;
        lemma_run_len_same_paths(a, b, k, name);
        lemma_dir_step(a, k, 0, n);
        lemma_dir_step(b, k, 0, n);
        if dir_records(a, k) == dir_records(b, k) {
            lemma_record_concat(
                name,
                dir_hash(a.take(n), k + 1),
                dir_hash(b.take(n), k + 1),
                dir_records(a.skip(n), k),
                dir_records(b.skip(n), k),
            );
            if i < n {
                let a1 = a.take(n);
                let b1 = b.take(n);
                lemma_run_len(a, k, name);
                assert forall|j: int| 0 <= j < a1.len() implies (#[trigger] a1[j]).0 == b1[j].0 by {
                    assert(a1[j] == a[j] && b1[j] == b[j]);
                }
                assert forall|j: int| 0 <= j < a1.len() implies (#[trigger] a1[j]).0.len() > k + 1 by {
                    assert(a1[j] == a[j]);
                }
                assert(a1[i] == a[i] && b1[i] == b[i]);
                lemma_records_change(a1, b1, k + 1, i);
                assert(a1 == a.subrange(0, n));
                assert(b1 == b.subrange(0, n));
                if dir_records(a1, k + 1) != dir_records(b1, k + 1) {
                    assert(a1.subrange(0, n) =~= a1);
                    assert(b1.subrange(0, n) =~= b1);
                    assert(dir_records(a1.subrange(0, n), k + 1) != dir_records(
                        b1.subrange(0, n),
                        k + 1,
                    ));
                    assert(dir_inputs_collide(a1, b1));
                }
                lemma_collision_within(a, b, 0, n);
            } else {
                let a1 = a.skip(n);
                let b1 = b.skip(n);
                assert forall|j: int| 0 <= j < a1.len() implies (#[trigger] a1[j]).0 == b1[j].0 by {
                    assert(a1[j] == a[j + n] && b1[j] == b[j + n]);
                }
                assert forall|j: int| 0 <= j < a1.len() implies (#[trigger] a1[j]).0.len() > k by {
                    assert(a1[j] == a[j + n]);
                }
                assert(a1[i - n] == a[i] && b1[i - n] == b[i]);
                lemma_records_change(a1, b1, k, i - n);
                assert(a1 == a.subrange(n, a.len() as int));
                assert(b1 == b.subrange(n, b.len() as int));
                lemma_collision_within(a, b, n, a.len() as int);
            }
        }
    }
}

/// Changing the hash one file contributes, with every path kept, changes the hash of each
/// directory that holds the file, down to the root (`k` = 0), unless BLAKE3 collides on
/// two different inputs of directories of the two trees.
pub proof fn lemma_changed_file_changes_dir_hash(a: Seq<InputModel>, b: Seq<InputModel>, k: nat, i: int)
    requires
        same_paths(a, b),
        forall|j: int| 0 <= j < a.len() ==> (#[trigger] a[j]).0.len() > k,
        0 <= i < a.len(),
        effective_hash(a[i].1) != effective_hash(b[i].1),
    ensures
        dir_hash(a, k) != dir_hash(b, k) || dir_inputs_collide(a, b),
{
    lemma_records_change(a, b, k, i);
    if dir_records(a, k) != dir_records(b, k) && dir_hash(a, k) == dir_hash(b, k) {
        assert(a.subrange(0, a.len() as int) =~= a);
        assert(b.subrange(0, b.len() as int) =~= b);
        assert(dir_records(a.subrange(0, a.len() as int), k) != dir_records(
            b.subrange(0, b.len() as int),
            k,
        ));
    }
}

/// Modifying one file changes the root hash: two trees with the same paths whose files
/// contribute the same hashes but at one file get different root hashes, unless BLAKE3
/// collides on two different inputs of directories of the two trees.
pub proof fn lemma_changed_file_changes_root(a: Seq<InputModel>, b: Seq<InputModel>, i: int)
    requires
        same_paths(a, b),
        forall|j: int| 0 <= j < a.len() ==> (#[trigger] a[j]).0.len() > 0,
        0 <= i < a.len(),
        effective_hash(a[i].1) != effective_hash(b[i].1),
    ensures
        manifest_root(a) != manifest_root(b) || dir_inputs_collide(a, b),
{
    lemma_changed_file_changes_dir_hash(a, b, 0, i);
}

/// Whether manifest path `p` lies on the path of a file with components `c`: it is the
/// file's own path or the path of one of the directories holding it, the root included.
pub open spec fn on_file_path(p: Seq<char>, c: Seq<Seq<char>>) -> bool {
    p == file_path(c) || exists|m: int| 0 <= m < c.len() && p == #[trigger] dir_path(c.take(m))
}

/// Two listings that give the same paths in the same order and differ only in entries
/// whose paths lie on the path of the file with components `c`.
pub open spec fn differ_only_on(s1: Seq<EntryView>, s2: Seq<EntryView>, c: Seq<Seq<char>>) -> bool {
    &&& s1.len() == s2.len()
    &&& forall|x: int| 0 <= x < s1.len() ==> (#[trigger] s1[x]).2 == s2[x].2
    &&& forall|x: int| 0 <= x < s1.len() && #[trigger] s1[x] != s2[x] ==> on_file_path(s1[x].2, c)
}

/// Listings that differ only on a file's path, put one after the other, still do.
proof fn lemma_differ_only_on_concat(
    a1: Seq<EntryView>,
    a2: Seq<EntryView>,
    b1: Seq<EntryView>,
    b2: Seq<EntryView>,
    c: Seq<Seq<char>>,
)
    requires
        differ_only_on(a1, a2, c),
        differ_only_on(b1, b2, c),
    ensures
        differ_only_on(a1 + b1, a2 + b2, c),
{
    assert forall|x: int| 0 <= x < (a1 + b1).len() implies (#[trigger] (a1 + b1)[x]).2 == (a2
        + b2)[x].2 && ((a1 + b1)[x] != (a2 + b2)[x] ==> on_file_path((a1 + b1)[x].2, c)) by {
        if x < a1.len() {
            assert((a1 + b1)[x] == a1[x] && (a2 + b2)[x] == a2[x]);
        } else {
            assert((a1 + b1)[x] == b1[x - a1.len()] && (a2 + b2)[x] == b2[x - a1.len()]);
        }
    }
}

/// A listing differs from itself on no path.
proof fn lemma_differ_only_on_same(s: Seq<EntryView>, c: Seq<Seq<char>>)
    ensures
        differ_only_on(s, s, c),
{
}

/// The listings of a directory at depth `k` whose entries agree but for file `i` differ
/// only on the path of that file; where `i` is not one of its entries, they are equal.
proof fn lemma_listing_local(
    l1: Seq<InputModel>,
    l2: Seq<InputModel>,
    k: nat,
    d: nat,
    i: int,
    c: Seq<Seq<char>>,
)
    requires
        same_paths(l1, l2),
        forall|j: int| 0 <= j < l1.len() ==> (#[trigger] l1[j]).0.len() > k,
        forall|j: int| 0 <= j < l1.len() ==> (#[trigger] l1[j]).0.take(k as int) == l1[0].0.take(k as int),
        forall|j: int| 0 <= j < l1.len() && j != i ==> (#[trigger] l1[j]).1 == l2[j].1,
        0 <= i < l1.len() ==> c == l1[i].0,
    ensures
        differ_only_on(dir_listing(l1, k, d), dir_listing(l2, k, d), c),
        !(0 <= i < l1.len()) ==> l1 == l2,
    decreases weight(l1, k),
{
    if !(0 <= i < l1.len()) {
        assert forall|j: int| 0 <= j < l1.len() implies l1[j] == l2[j] by {
            assert(l1[j].0 == l2[j].0);
        }
        assert(l1 =~= l2);
        lemma_differ_only_on_same(dir_listing(l1, k, d), c);
        return;
    }
    assert(l1[0].0 == l2[0].0);
    if l1[0].0.len() <= k + 1 {
        lemma_file_step(l1, k, d);
        lemma_file_step(l2, k, d);
        let p1 = if l1[0].0.len() <= d {
            seq![(file_entry_type(l1[0].1), file_entry_value(l1[0].1), file_path(l1[0].0))]
        } else {
            Seq::<EntryView>::empty()
        };
        let p2 = if l2[0].0.len() <= d {
            seq![(file_entry_type(l2[0].1), file_entry_value(l2[0].1), file_path(l2[0].0))]
        } else {
            Seq::<EntryView>::empty()
        };
        assert(differ_only_on(p1, p2, c));
        let r1 = l1.drop_first();
        let r2 = l2.drop_first();
        assert forall|j: int| 0 <= j < r1.len() implies (#[trigger] r1[j]).0 == r2[j].0 by {
            assert(r1[j] == l1[j + 1] && r2[j] == l2[j + 1]);
        }
        assert forall|j: int| 0 <= j < r1.len() implies (#[trigger] r1[j]).0.len() > k && r1[j].0.take(
            k as int,
        ) == r1[0].0.take(k as int) && (j != i - 1 ==> r1[j].1 == r2[j].1) by {
            assert(r1[j] == l1[j + 1] && r2[j] == l2[j + 1]);
            assert(r1[0] == l1[1]);
        }
        if 0 <= i - 1 < r1.len() {
            assert(r1[i - 1] == l1[i]);
        }
        lemma_listing_local(r1, r2, k, d, i - 1, c);
        lemma_differ_only_on_concat(p1, p2, dir_listing(r1, k, d), dir_listing(r2, k, d), c);
    } else {
        let name = l1[0].0[k as int];
        let n = run_len(l1, k, name) as int;
        lemma_run_len_same_paths(l1, l2, k, name);
        lemma_run_len(l1, k, name);
        lemma_dir_step(l1, k, d, n);
        lemma_dir_step(l2, k, d, n);
        let s1 = l1.take(n);
        let s2 = l2.take(n);
        let r1 = l1.skip(n);
        let r2 = l2.skip(n);
        let dp = dir_path(l1[0].0.take((k + 1) as int));
        let m1 = if k + 1 <= d {
            seq![(EntryType::Dir, hash_hex(dir_hash(s1, k + 1)), dp)]
        } else {
            Seq::<EntryView>::empty()
        };
        let m2 = if k + 1 <= d {
            seq![(EntryType::Dir, hash_hex(dir_hash(s2, k + 1)), dp)]
        } else {
            Seq::<EntryView>::empty()
        };
        assert(l2[0].0.take((k + 1) as int) == l1[0].0.take((k + 1) as int));
        assert forall|j: int| 0 <= j < s1.len() implies (#[trigger] s1[j]).0 == s2[j].0 by {
            assert(s1[j] == l1[j] && s2[j] == l2[j]);
        }
        assert forall|j: int| 0 <= j < s1.len() implies (#[trigger] s1[j]).0.len() > k + 1 && s1[j].0.take(
            (k + 1) as int,
        ) == s1[0].0.take((k + 1) as int) && (j != i ==> s1[j].1 == s2[j].1) by {
            assert(s1[j] == l1[j] && s2[j] == l2[j]);
            assert(s1[0] == l1[0]);
            assert(l1[j].0.take(k as int) == l1[0].0.take(k as int));
            assert(l1[j].0[k as int] == name);
            assert(l1[j].0.take((k + 1) as int) =~= l1[j].0.take(k as int).push(name));
            assert(l1[0].0.take((k + 1) as int) =~= l1[0].0.take(k as int).push(name));
        }
        assert forall|j: int| 0 <= j < r1.len() implies (#[trigger] r1[j]).0 == r2[j].0 by {
            assert(r1[j] == l1[j + n] && r2[j] == l2[j + n]);
        }
        assert forall|j: int| 0 <= j < r1.len() implies (#[trigger] r1[j]).0.len() > k && r1[j].0.take(
            k as int,
        ) == r1[0].0.take(k as int) && (j != i - n ==> r1[j].1 == r2[j].1) by {
            assert(r1[j] == l1[j + n] && r2[j] == l2[j + n]);
            assert(r1[0] == l1[n]);
        }
        if i < n {
            assert(s1[i] == l1[i]);
            lemma_listing_local(s1, s2, k + 1, d, i, c);
            lemma_listing_local(r1, r2, k, d, i - n, c);
            assert(r1 == r2);
            lemma_differ_only_on_same(dir_listing(r1, k, d), c);
            // The directory's own entry lies on the file's path.
            assert(c == l1[i].0);
            assert(c.take((k + 1) as int) =~= l1[0].0.take((k + 1) as int)) by {
                assert(l1[i].0.take(k as int) == l1[0].0.take(k as int));
                assert(l1[i].0[k as int] == name);
                assert(l1[i].0.take((k + 1) as int) =~= l1[i].0.take(k as int).push(name));
                assert(l1[0].0.take((k + 1) as int) =~= l1[0].0.take(k as int).push(name));
            }
            assert(on_file_path(dp, c)) by {
                assert(dp == dir_path(c.take((k + 1) as int)));
            }
            assert(differ_only_on(m1, m2, c));
        } else {
            lemma_listing_local(s1, s2, k + 1, d, -1, c);
            assert(s1 == s2);
            lemma_differ_only_on_same(dir_listing(s1, k + 1, d), c);
            assert(m1 == m2);
            lemma_differ_only_on_same(m1, c);
            assert(r1[i - n] == l1[i]);
            lemma_listing_local(r1, r2, k, d, i - n, c);
        }
        lemma_differ_only_on_concat(dir_listing(s1, k + 1, d), dir_listing(s2, k + 1, d), m1, m2, c);
        lemma_differ_only_on_concat(
            dir_listing(s1, k + 1, d) + m1,
            dir_listing(s2, k + 1, d) + m2,
            dir_listing(r1, k, d),
            dir_listing(r2, k, d),
            c,
        );
    }
}

/// Changing one file leaves every other entry of the listing as it was: two trees with the
/// same paths whose files are the same but for file `i` give listings with the same paths
/// in the same order, which differ only in the entries of that file and of the directories
/// holding it, the root included.
pub proof fn lemma_changed_file_keeps_other_entries(
    l1: Seq<InputModel>,
    l2: Seq<InputModel>,
    i: int,
    d: nat,
)
    requires
        same_paths(l1, l2),
        forall|j: int| 0 <= j < l1.len() ==> (#[trigger] l1[j]).0.len() > 0,
        0 <= i < l1.len(),
        forall|j: int| 0 <= j < l1.len() && j != i ==> (#[trigger] l1[j]).1 == l2[j].1,
    ensures
        differ_only_on(manifest_listing(l1, d), manifest_listing(l2, d), l1[i].0),
{
    let c = l1[i].0;
    assert forall|j: int| 0 <= j < l1.len() implies (#[trigger] l1[j]).0.take(0) == l1[0].0.take(0) by {
        assert(l1[j].0.take(0) =~= Seq::<Seq<char>>::empty());
        assert(l1[0].0.take(0) =~= Seq::<Seq<char>>::empty());
    }
    lemma_listing_local(l1, l2, 0, d, i, c);
    let root1 = seq![(EntryType::Dir, hash_hex(manifest_root(l1)), dir_path(Seq::<Seq<char>>::empty()))];
    let root2 = seq![(EntryType::Dir, hash_hex(manifest_root(l2)), dir_path(Seq::<Seq<char>>::empty()))];
    assert(on_file_path(dir_path(Seq::<Seq<char>>::empty()), c)) by {
        assert(c.take(0) =~= Seq::<Seq<char>>::empty());
        assert(dir_path(Seq::<Seq<char>>::empty()) == dir_path(c.take(0)));
    }
    assert(differ_only_on(root1, root2, c));
    lemma_differ_only_on_concat(root1, root2, dir_listing(l1, 0, d), dir_listing(l2, 0, d), c);
}

/// Two different hash inputs, of the directory at depth `k` holding the entries `lo..hi`
/// of each of the two lists, have BLAKE3 hashes that agree in the 128 bits a manifest
/// shows: a collision, full or truncated, between inputs the two trees give.
pub open spec fn dir_inputs_collide_shown(a: Seq<InputModel>, b: Seq<InputModel>) -> bool {
    exists|k: nat, lo: int, hi: int|
        0 <= lo <= hi <= a.len() && #[trigger] dir_records(a.subrange(lo, hi), k) != dir_records(
            b.subrange(lo, hi),
            k,
        ) && hash_hex(dir_hash(a.subrange(lo, hi), k)) == hash_hex(dir_hash(b.subrange(lo, hi), k))
}

/// A full collision is one in the bits shown too.
proof fn lemma_collide_shown_from_full(a: Seq<InputModel>, b: Seq<InputModel>)
    requires
        dir_inputs_collide(a, b),
    ensures
        dir_inputs_collide_shown(a, b),
{
    let (k, lo, hi) = choose|k: nat, lo: int, hi: int|
        0 <= lo <= hi <= a.len() && #[trigger] dir_records(a.subrange(lo, hi), k) != dir_records(
            b.subrange(lo, hi),
            k,
        ) && dir_hash(a.subrange(lo, hi), k) == dir_hash(b.subrange(lo, hi), k);
    assert(dir_records(a.subrange(lo, hi), k) != dir_records(b.subrange(lo, hi), k));
}

/// A collision in the bits shown among the inputs of a part of two lists is one of the
/// lists' own.
proof fn lemma_collision_shown_within(a: Seq<InputModel>, b: Seq<InputModel>, lo: int, hi: int)
    requires
        0 <= lo <= hi <= a.len(),
        a.len() == b.len(),
        dir_inputs_collide_shown(a.subrange(lo, hi), b.subrange(lo, hi)),
    ensures
        dir_inputs_collide_shown(a, b),
{
    let sa = a.subrange(lo, hi);
    let sb = b.subrange(lo, hi);
    let (k, x, y) = choose|k: nat, x: int, y: int|
        0 <= x <= y <= sa.len() && #[trigger] dir_records(sa.subrange(x, y), k) != dir_records(
            sb.subrange(x, y),
            k,
        ) && hash_hex(dir_hash(sa.subrange(x, y), k)) == hash_hex(dir_hash(sb.subrange(x, y), k));
    assert(sa.subrange(x, y) =~= a.subrange(lo + x, lo + y));
    assert(sb.subrange(x, y) =~= b.subrange(lo + x, lo + y));
    assert(dir_records(a.subrange(lo + x, lo + y), k) != dir_records(b.subrange(lo + x, lo + y), k));
}

/// Both listings give the directory with path `p` an entry at the same position, and the
/// two values differ unless the trees `a` and `b` give a collision in the bits shown.
pub open spec fn dir_entry_changes(
    s1: Seq<EntryView>,
    s2: Seq<EntryView>,
    p: Seq<char>,
    a: Seq<InputModel>,
    b: Seq<InputModel>,
) -> bool {
    exists|x: int|
        0 <= x < s1.len() && x < s2.len() && #[trigger] s1[x] == (EntryType::Dir, s1[x].1, p)
            && s2[x] == (EntryType::Dir, s2[x].1, p) && (s1[x].1 != s2[x].1
            || dir_inputs_collide_shown(a, b))
}

/// The hash input of a directory holding a changed file differs, so its shown hash
/// differs too unless the two inputs collide in the bits shown.
proof fn lemma_shown_hash_changes(l1: Seq<InputModel>, l2: Seq<InputModel>, k: nat, i: int)
    requires
        same_paths(l1, l2),
        forall|j: int| 0 <= j < l1.len() ==> (#[trigger] l1[j]).0.len() > k,
        0 <= i < l1.len(),
        effective_hash(l1[i].1) != effective_hash(l2[i].1),
    ensures
        hash_hex(dir_hash(l1, k)) != hash_hex(dir_hash(l2, k)) || dir_inputs_collide_shown(l1, l2),
{
    lemma_records_change(l1, l2, k, i);
    if dir_inputs_collide(l1, l2) {
        lemma_collide_shown_from_full(l1, l2);
    } else if hash_hex(dir_hash(l1, k)) == hash_hex(dir_hash(l2, k)) {
        assert(l1.subrange(0, l1.len() as int) =~= l1);
        assert(l2.subrange(0, l2.len() as int) =~= l2);
        assert(dir_records(l1.subrange(0, l1.len() as int), k) != dir_records(
            l2.subrange(0, l2.len() as int),
            k,
        ));
    }
}

/// Below a directory at depth `k` that holds changed file `i`, each directory holding the
/// file down to the output depth is listed at the same position on both sides, with
/// values that differ unless the trees collide in the bits shown.
proof fn lemma_listed_ancestors_change(
    l1: Seq<InputModel>,
    l2: Seq<InputModel>,
    k: nat,
    d: nat,
    i: int,
    c: Seq<Seq<char>>,
)
    requires
        same_paths(l1, l2),
        forall|j: int| 0 <= j < l1.len() ==> (#[trigger] l1[j]).0.len() > k,
        forall|j: int| 0 <= j < l1.len() ==> (#[trigger] l1[j]).0.take(k as int) == l1[0].0.take(k as int),
        forall|j: int| 0 <= j < l1.len() && j != i ==> (#[trigger] l1[j]).1 == l2[j].1,
        0 <= i < l1.len(),
        c == l1[i].0,
        effective_hash(l1[i].1) != effective_hash(l2[i].1),
    ensures
        forall|m: int|
            k < m < c.len() && m <= d ==> #[trigger] dir_entry_changes(
                dir_listing(l1, k, d),
                dir_listing(l2, k, d),
                dir_path(c.take(m)),
                l1,
                l2,
            ),
    decreases weight(l1, k),
{
    assert(l1[0].0 == l2[0].0);
    if l1[0].0.len() <= k + 1 {
        lemma_file_step(l1, k, d);
        lemma_file_step(l2, k, d);
        if i > 0 {
            let p1 = if l1[0].0.len() <= d {
                seq![(file_entry_type(l1[0].1), file_entry_value(l1[0].1), file_path(l1[0].0))]
            } else {
                Seq::<EntryView>::empty()
            };
            let p2 = if l2[0].0.len() <= d {
                seq![(file_entry_type(l2[0].1), file_entry_value(l2[0].1), file_path(l2[0].0))]
            } else {
                Seq::<EntryView>::empty()
            };
            let r1 = l1.drop_first();
            let r2 = l2.drop_first();
            assert forall|j: int| 0 <= j < r1.len() implies (#[trigger] r1[j]).0 == r2[j].0 by {
                assert(r1[j] == l1[j + 1] && r2[j] == l2[j + 1]);
            }
            assert forall|j: int| 0 <= j < r1.len() implies (#[trigger] r1[j]).0.len() > k && r1[j].0.take(
                k as int,
            ) == r1[0].0.take(k as int) && (j != i - 1 ==> r1[j].1 == r2[j].1) by {
                assert(r1[j] == l1[j + 1] && r2[j] == l2[j + 1]);
                assert(r1[0] == l1[1]);
            }
            assert(r1[i - 1] == l1[i] && r2[i - 1] == l2[i]);
            lemma_listed_ancestors_change(r1, r2, k, d, i - 1, c);
            assert(r1 == l1.subrange(1, l1.len() as int));
            assert(r2 == l2.subrange(1, l2.len() as int));
            let q1 = dir_listing(r1, k, d);
            let q2 = dir_listing(r2, k, d);
            assert forall|m: int| k < m < c.len() && m <= d implies #[trigger] dir_entry_changes(
                dir_listing(l1, k, d),
                dir_listing(l2, k, d),
                dir_path(c.take(m)),
                l1,
                l2,
            ) by {
                let p = dir_path(c.take(m));
                assert(dir_entry_changes(q1, q2, p, r1, r2));
                let y = choose|y: int|
                    0 <= y < q1.len() && y < q2.len() && #[trigger] q1[y] == (EntryType::Dir, q1[y].1, p)
                        && q2[y] == (EntryType::Dir, q2[y].1, p) && (q1[y].1 != q2[y].1
                        || dir_inputs_collide_shown(r1, r2));
                let x = p1.len() + y;
                assert((p1 + q1)[x] == q1[y]);
                assert((p2 + q2)[x] == q2[y]);
                if q1[y].1 == q2[y].1 {
                    lemma_collision_shown_within(l1, l2, 1, l1.len() as int);
                }
                assert(dir_listing(l1, k, d)[x] == (EntryType::Dir, dir_listing(l1, k, d)[x].1, p));
            }
        }
    } else {
        let name = l1[0].0[k as int];
        let n = run_len(l1, k, name) as int;
        lemma_run_len_same_paths(l1, l2, k, name);
        lemma_run_len(l1, k, name);
        lemma_dir_step(l1, k, d, n);
        lemma_dir_step(l2, k, d, n);
        let s1 = l1.take(n);
        let s2 = l2.take(n);
        let r1 = l1.skip(n);
        let r2 = l2.skip(n);
        let dp = dir_path(l1[0].0.take((k + 1) as int));
        let m1 = if k + 1 <= d {
            seq![(EntryType::Dir, hash_hex(dir_hash(s1, k + 1)), dp)]
        } else {
            Seq::<EntryView>::empty()
        };
        let m2 = if k + 1 <= d {
            seq![(EntryType::Dir, hash_hex(dir_hash(s2, k + 1)), dp)]
        } else {
            Seq::<EntryView>::empty()
        };
        assert(l2[0].0.take((k + 1) as int) == l1[0].0.take((k + 1) as int));
        assert forall|j: int| 0 <= j < s1.len() implies (#[trigger] s1[j]).0 == s2[j].0 by {
            assert(s1[j] == l1[j] && s2[j] == l2[j]);
        }
        assert forall|j: int| 0 <= j < s1.len() implies (#[trigger] s1[j]).0.len() > k + 1 && s1[j].0.take(
            (k + 1) as int,
        ) == s1[0].0.take((k + 1) as int) && (j != i ==> s1[j].1 == s2[j].1) by {
            assert(s1[j] == l1[j] && s2[j] == l2[j]);
            assert(s1[0] == l1[0]);
            assert(l1[j].0.take(k as int) == l1[0].0.take(k as int));
            assert(l1[j].0[k as int] == name);
            assert(l1[j].0.take((k + 1) as int) =~= l1[j].0.take(k as int).push(name));
            assert(l1[0].0.take((k + 1) as int) =~= l1[0].0.take(k as int).push(name));
        }
        assert forall|j: int| 0 <= j < r1.len() implies (#[trigger] r1[j]).0 == r2[j].0 by {
            assert(r1[j] == l1[j + n] && r2[j] == l2[j + n]);
        }
        assert forall|j: int| 0 <= j < r1.len() implies (#[trigger] r1[j]).0.len() > k && r1[j].0.take(
            k as int,
        ) == r1[0].0.take(k as int) && (j != i - n ==> r1[j].1 == r2[j].1) by {
            assert(r1[j] == l1[j + n] && r2[j] == l2[j + n]);
            assert(r1[0] == l1[n]);
        }
        let a1 = dir_listing(s1, k + 1, d);
        let a2 = dir_listing(s2, k + 1, d);
        let q1 = dir_listing(r1, k, d);
        let q2 = dir_listing(r2, k, d);
        assert(dir_listing(l1, k, d) == a1 + m1 + q1);
        assert(dir_listing(l2, k, d) == a2 + m2 + q2);
        if i < n {
            assert(s1[i] == l1[i] && s2[i] == l2[i]);
            lemma_listing_local(s1, s2, k + 1, d, i, c);
            lemma_listed_ancestors_change(s1, s2, k + 1, d, i, c);
            assert(s1 == l1.subrange(0, n));
            assert(s2 == l2.subrange(0, n));
            assert(c.take((k + 1) as int) =~= l1[0].0.take((k + 1) as int)) by {
                assert(l1[i].0.take(k as int) == l1[0].0.take(k as int));
                assert(l1[i].0[k as int] == name);
                assert(l1[i].0.take((k + 1) as int) =~= l1[i].0.take(k as int).push(name));
                assert(l1[0].0.take((k + 1) as int) =~= l1[0].0.take(k as int).push(name));
            }
            assert forall|m: int| k < m < c.len() && m <= d implies #[trigger] dir_entry_changes(
                dir_listing(l1, k, d),
                dir_listing(l2, k, d),
                dir_path(c.take(m)),
                l1,
                l2,
            ) by {
                let p = dir_path(c.take(m));
                if m == k + 1 {
                    let x = a1.len() as int;
                    assert((a1 + m1 + q1)[x] == m1[0]);
                    assert((a2 + m2 + q2)[x] == m2[0]);
                    lemma_shown_hash_changes(s1, s2, k + 1, i);
                    if hash_hex(dir_hash(s1, k + 1)) == hash_hex(dir_hash(s2, k + 1)) {
                        lemma_collision_shown_within(l1, l2, 0, n);
                    }
                    assert((a1 + m1 + q1)[x] == (EntryType::Dir, (a1 + m1 + q1)[x].1, p));
                } else {
                    assert(dir_entry_changes(a1, a2, p, s1, s2));
                    let y = choose|y: int|
                        0 <= y < a1.len() && y < a2.len() && #[trigger] a1[y] == (EntryType::Dir, a1[y].1, p)
                            && a2[y] == (EntryType::Dir, a2[y].1, p) && (a1[y].1 != a2[y].1
                            || dir_inputs_collide_shown(s1, s2));
                    assert((a1 + m1 + q1)[y] == a1[y]);
                    assert((a2 + m2 + q2)[y] == a2[y]);
                    if a1[y].1 == a2[y].1 {
                        lemma_collision_shown_within(l1, l2, 0, n);
                    }
                    assert((a1 + m1 + q1)[y] == (EntryType::Dir, (a1 + m1 + q1)[y].1, p));
                }
            }
        } else {
            lemma_listing_local(s1, s2, k + 1, d, -1, c);
            assert(s1 == s2);
            assert(r1[i - n] == l1[i] && r2[i - n] == l2[i]);
            lemma_listed_ancestors_change(r1, r2, k, d, i - n, c);
            assert(r1 == l1.subrange(n, l1.len() as int));
            assert(r2 == l2.subrange(n, l2.len() as int));
            assert forall|m: int| k < m < c.len() && m <= d implies #[trigger] dir_entry_changes(
                dir_listing(l1, k, d),
                dir_listing(l2, k, d),
                dir_path(c.take(m)),
                l1,
                l2,
            ) by {
                let p = dir_path(c.take(m));
                assert(dir_entry_changes(q1, q2, p, r1, r2));
                let y = choose|y: int|
                    0 <= y < q1.len() && y < q2.len() && #[trigger] q1[y] == (EntryType::Dir, q1[y].1, p)
                        && q2[y] == (EntryType::Dir, q2[y].1, p) && (q1[y].1 != q2[y].1
                        || dir_inputs_collide_shown(r1, r2));
                let x = a1.len() + m1.len() + y;
                assert((a1 + m1 + q1)[x] == q1[y]);
                assert((a2 + m2 + q2)[x] == q2[y]);
                if q1[y].1 == q2[y].1 {
                    lemma_collision_shown_within(l1, l2, n, l1.len() as int);
                }
                assert((a1 + m1 + q1)[x] == (EntryType::Dir, (a1 + m1 + q1)[x].1, p));
            }
        }
    }
}

/// Modifying one file changes the value the manifest shows for every directory holding
/// it, the root and each other one down to the output depth: both listings give that
/// directory an entry at the same position, and its two values differ unless BLAKE3, or
/// its first 128 bits that the manifest shows, collides on two different inputs of
/// directories of the two trees.
pub proof fn lemma_changed_file_changes_listed_dirs(
    l1: Seq<InputModel>,
    l2: Seq<InputModel>,
    i: int,
    d: nat,
)
    requires
        same_paths(l1, l2),
        forall|j: int| 0 <= j < l1.len() ==> (#[trigger] l1[j]).0.len() > 0,
        0 <= i < l1.len(),
        forall|j: int| 0 <= j < l1.len() && j != i ==> (#[trigger] l1[j]).1 == l2[j].1,
        effective_hash(l1[i].1) != effective_hash(l2[i].1),
    ensures
        forall|m: int|
            0 <= m < l1[i].0.len() && m <= d ==> #[trigger] dir_entry_changes(
                manifest_listing(l1, d),
                manifest_listing(l2, d),
                dir_path(l1[i].0.take(m)),
                l1,
                l2,
            ),
{
    let c = l1[i].0;
    assert forall|j: int| 0 <= j < l1.len() implies (#[trigger] l1[j]).0.take(0) == l1[0].0.take(0) by {
        assert(l1[j].0.take(0) =~= Seq::<Seq<char>>::empty());
        assert(l1[0].0.take(0) =~= Seq::<Seq<char>>::empty());
    }
    lemma_listed_ancestors_change(l1, l2, 0, d, i, c);
    let root1 = seq![(EntryType::Dir, hash_hex(manifest_root(l1)), dir_path(Seq::<Seq<char>>::empty()))];
    let root2 = seq![(EntryType::Dir, hash_hex(manifest_root(l2)), dir_path(Seq::<Seq<char>>::empty()))];
    let q1 = dir_listing(l1, 0, d);
    let q2 = dir_listing(l2, 0, d);
    assert forall|m: int| 0 <= m < c.len() && m <= d implies #[trigger] dir_entry_changes(
        manifest_listing(l1, d),
        manifest_listing(l2, d),
        dir_path(c.take(m)),
        l1,
        l2,
    ) by {
        let p = dir_path(c.take(m));
        if m == 0 {
            assert(c.take(0) =~= Seq::<Seq<char>>::empty());
            lemma_shown_hash_changes(l1, l2, 0, i);
            assert((root1 + q1)[0] == (EntryType::Dir, (root1 + q1)[0].1, p));
            assert((root2 + q2)[0] == (EntryType::Dir, (root2 + q2)[0].1, p));
        } else {
            assert(dir_entry_changes(q1, q2, p, l1, l2));
            let y = choose|y: int|
                0 <= y < q1.len() && y < q2.len() && #[trigger] q1[y] == (EntryType::Dir, q1[y].1, p)
                    && q2[y] == (EntryType::Dir, q2[y].1, p) && (q1[y].1 != q2[y].1
                    || dir_inputs_collide_shown(l1, l2));
            assert((root1 + q1)[y + 1] == q1[y]);
            assert((root2 + q2)[y + 1] == q2[y]);
            assert((root1 + q1)[y + 1] == (EntryType::Dir, (root1 + q1)[y + 1].1, p));
        }
    }
}

/// Whether two file hashes record the same thing: the same content hash, the same size of
/// a dataless file, the same error reason, or the same link target.
pub open spec fn same_file_hash(h1: FileHash, h2: FileHash) -> bool {
    match (h1, h2) {
        (FileHash::Blake3(a), FileHash::Blake3(b)) => a@ == b@,
        (FileHash::Dataless(a), FileHash::Dataless(b)) => a == b,
        (FileHash::Error(a), FileHash::Error(b)) => a@ == b@,
        (FileHash::Symlink(a), FileHash::Symlink(b)) => a@ == b@,
        _ => false,
    }
}

/// The text whose BLAKE3 hash stands for an entry that has no content hash:
/// `dataless:<size>`, `error:<reason>` or `symlink:<target>`.
pub open spec fn special_text(h: FileHash) -> Seq<char> {
    match h {
        FileHash::Blake3(_) => Seq::empty(),
        FileHash::Dataless(size) => "dataless:"@ + decimal(size as nat),
        FileHash::Error(reason) => "error:"@ + reason@,
        FileHash::Symlink(target) => "symlink:"@ + target@,
    }
}

/// Two file hashes that record different things contribute the same bytes only through a
/// BLAKE3 collision: two different special texts with the same hash, or a content hash
/// equal to the hash of a special text.
pub open spec fn file_hashes_collide(h1: FileHash, h2: FileHash) -> bool {
    match (h1, h2) {
        (FileHash::Blake3(_), FileHash::Blake3(_)) => false,
        (FileHash::Blake3(a), _) => a@ == blake3_digest(encode_utf8(special_text(h2)))@,
        (_, FileHash::Blake3(b)) => b@ == blake3_digest(encode_utf8(special_text(h1)))@,
        (_, _) => encode_utf8(special_text(h1)) != encode_utf8(special_text(h2)) && blake3_digest(
            encode_utf8(special_text(h1)),
        )@ == blake3_digest(encode_utf8(special_text(h2)))@,
    }
}

/// What a file contributes to its directory's hash: its content hash, or else the BLAKE3
/// hash of its special text, which names the size, the reason or the link target.
pub proof fn lemma_effective_hash_is(h: FileHash)
    ensures
        match h {
            FileHash::Blake3(b) => effective_hash(h) == b@,
            FileHash::Dataless(size) => effective_hash(h) == blake3_digest(
                encode_utf8("dataless:"@ + decimal(size as nat)),
            )@,
            FileHash::Error(reason) => effective_hash(h) == blake3_digest(
                encode_utf8("error:"@ + reason@),
            )@,
            FileHash::Symlink(target) => effective_hash(h) == blake3_digest(
                encode_utf8("symlink:"@ + target@),
            )@,
        },
{
    reveal_strlit("dataless");
    reveal_strlit("dataless:");
    reveal_strlit("error");
    reveal_strlit("error:");
    reveal_strlit("symlink");
    reveal_strlit("symlink:");
    match h {
        FileHash::Blake3(_) => {},
        FileHash::Dataless(size) => {
            assert("dataless"@ + seq![':'] + decimal(size as nat) =~= "dataless:"@ + decimal(size as nat));
        },
        FileHash::Error(reason) => {
            assert("error"@ + seq![':'] + reason@ =~= "error:"@ + reason@);
        },
        FileHash::Symlink(target) => {
            assert("symlink"@ + seq![':'] + target@ =~= "symlink:"@ + target@);
        },
    }
}

/// Texts that begin with the same prefix and go on differently differ.
proof fn lemma_prefixed_differ(p: Seq<char>, a: Seq<char>, b: Seq<char>)
    requires
        a != b,
    ensures
        p + a != p + b,
{
    if p + a == p + b {
        assert((p + a).skip(p.len() as int) =~= a);
        assert((p + b).skip(p.len() as int) =~= b);
    }
}

/// The special texts of two special entries that record different things differ.
proof fn lemma_special_texts_differ(h1: FileHash, h2: FileHash)
    requires
        !same_file_hash(h1, h2),
        !(h1 is Blake3),
        !(h2 is Blake3),
    ensures
        special_text(h1) != special_text(h2),
{
    reveal_strlit("dataless:");
    reveal_strlit("error:");
    reveal_strlit("symlink:");
    match (h1, h2) {
        (FileHash::Dataless(a), FileHash::Dataless(b)) => {
            lemma_decimal_parses(a as nat);
            lemma_decimal_parses(b as nat);
            lemma_prefixed_differ("dataless:"@, decimal(a as nat), decimal(b as nat));
        },
        (FileHash::Error(a), FileHash::Error(b)) => {
            lemma_prefixed_differ("error:"@, a@, b@);
        },
        (FileHash::Symlink(a), FileHash::Symlink(b)) => {
            lemma_prefixed_differ("symlink:"@, a@, b@);
        },
        _ => {
            assert(special_text(h1)[0] != special_text(h2)[0]);
        },
    }
}

/// Two file hashes that record different things contribute different bytes to their
/// directory, unless BLAKE3 collides.
pub proof fn lemma_different_file_hashes_contribute_differently(h1: FileHash, h2: FileHash)
    requires
        !same_file_hash(h1, h2),
    ensures
        effective_hash(h1) != effective_hash(h2) || file_hashes_collide(h1, h2),
{
    lemma_effective_hash_is(h1);
    lemma_effective_hash_is(h2);
    if !(h1 is Blake3) && !(h2 is Blake3) {
        lemma_special_texts_differ(h1, h2);
        vstd::utf8::encode_utf8_decode_utf8(special_text(h1));
        vstd::utf8::encode_utf8_decode_utf8(special_text(h2));
    }
}

/// Modifying one file changes the root hash: two trees with the same paths whose file `i`
/// records different things (another content, size, reason or link target) get different
/// root hashes, unless BLAKE3 collides on two different inputs of directories of the two
/// trees or on what the two versions of the file stand for.
pub proof fn lemma_changed_file_hash_changes_root(l1: Seq<InputModel>, l2: Seq<InputModel>, i: int)
    requires
        same_paths(l1, l2),
        forall|j: int| 0 <= j < l1.len() ==> (#[trigger] l1[j]).0.len() > 0,
        0 <= i < l1.len(),
        !same_file_hash(l1[i].1, l2[i].1),
    ensures
        manifest_root(l1) != manifest_root(l2) || dir_inputs_collide(l1, l2) || file_hashes_collide(
            l1[i].1,
            l2[i].1,
        ),
{
    lemma_different_file_hashes_contribute_differently(l1[i].1, l2[i].1);
    if effective_hash(l1[i].1) != effective_hash(l2[i].1) {
        lemma_changed_file_changes_root(l1, l2, i);
    }
}

/// Modifying one file, and nothing else, changes the value the manifest shows for every
/// directory holding it down to the output depth, the root included, unless BLAKE3 (or its
/// first 128 bits) collides on two different inputs of directories of the two trees, or
/// BLAKE3 collides on what the two versions of the file stand for.
pub proof fn lemma_changed_file_hash_changes_listed_dirs(
    l1: Seq<InputModel>,
    l2: Seq<InputModel>,
    i: int,
    d: nat,
)
    requires
        same_paths(l1, l2),
        forall|j: int| 0 <= j < l1.len() ==> (#[trigger] l1[j]).0.len() > 0,
        0 <= i < l1.len(),
        forall|j: int| 0 <= j < l1.len() && j != i ==> (#[trigger] l1[j]).1 == l2[j].1,
        !same_file_hash(l1[i].1, l2[i].1),
    ensures
        file_hashes_collide(l1[i].1, l2[i].1) || forall|m: int|
            0 <= m < l1[i].0.len() && m <= d ==> #[trigger] dir_entry_changes(
                manifest_listing(l1, d),
                manifest_listing(l2, d),
                dir_path(l1[i].0.take(m)),
                l1,
                l2,
            ),
{
    lemma_different_file_hashes_contribute_differently(l1[i].1, l2[i].1);
    if effective_hash(l1[i].1) != effective_hash(l2[i].1) {
        lemma_changed_file_changes_listed_dirs(l1, l2, i, d);
    }
}

} // verus!
