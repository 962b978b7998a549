//! The decisions of the `fingerprint` and `compare` commands that do not touch the file
//! system: where a fingerprint is written, how a manifest is labelled in a comparison,
//! and what two manifests' headers are warned about.

use vstd::prelude::*;
use crate::manifest::{HeaderModel, ManifestHeader};
use crate::merkle::{EntryType, FlatEntry};
use crate::order::{chars_le, chars_le_exec, texts_of};
use crate::walk::{name_extension, name_extension_exec};
use crate::text::{chars_eq, chars_of, decimal, push_decimal, push_str, string_of};

verus! {

/// A text with every `:` replaced by `-`.
pub open spec fn colons_to_dashes(s: Seq<char>) -> Seq<char> {
    s.map_values(|c: char| if c == ':' { '-' } else { c })
}

/// The file name of a fingerprint: `<host>.txt`, or `<host>-<tag>.txt` for a tag, or
/// `<host>-<date>.txt` with the date's colons turned into dashes for an empty tag.
pub open spec fn output_file_name_spec(host: Seq<char>, tag: Option<Seq<char>>, date: Seq<char>) -> Seq<
    char,
> {
    match tag {
        None => host + ".txt"@,
        Some(t) => if t.len() == 0 {
            host + seq!['-'] + colons_to_dashes(date) + ".txt"@
        } else {
            host + seq!['-'] + t + ".txt"@
        },
    }
}

/// The file name under which a fingerprint is written in the fingerprints directory.
pub fn output_file_name(host: &str, tag: Option<&str>, date: &str) -> (name: String)
    ensures
        name@ == output_file_name_spec(
            host@,
            match tag {
                Some(t) => Some(t@),
                None => None,
            },
            date@,
        ),
{
    let mut out = chars_of(host);
    match tag {
        None => {},
        Some(t) => {
            out.push('-');
            let tc = chars_of(t);
            if tc.len() == 0 {
                let dc = chars_of(date);
                let ghost start = out@;
                let mut i: usize = 0;
                while i < dc.len()
                    invariant
                        i <= dc@.len(),
                        out@ == start + colons_to_dashes(dc@.take(i as int)),
                    decreases dc@.len() - i,
                {
                    let c = dc[i];
                    out.push(if c == ':' { '-' } else { c });
                    assert(colons_to_dashes(dc@.take(i + 1)) =~= colons_to_dashes(dc@.take(i as int)).push(
                        if c == ':' { '-' } else { c },
                    ));
                    i = i + 1;
                }
                assert(dc@.take(dc@.len() as int) =~= dc@);
            } else {
                crate::text::push_all(&mut out, tc.as_slice());
            }
        },
    }
    push_str(&mut out, ".txt");
    let ghost t = match tag {
        Some(t) => Some(t@),
        None => None,
    };
    assert(out@ =~= output_file_name_spec(host@, t, date@));
    string_of(&out)
}

/// How a manifest is named in a comparison: its host and, in parentheses, its date.
pub fn compare_label(header: &ManifestHeader) -> (label: String)
    ensures
        label@ == header.host@ + " ("@ + header.date@ + ")"@,
{
    let mut out = chars_of(header.host.as_str());
    push_str(&mut out, " (");
    push_str(&mut out, header.date.as_str());
    push_str(&mut out, ")");
    string_of(&out)
}

/// The warnings a comparison prints about two manifests' headers: a different depth, a
/// different root path, a different mode.
pub open spec fn mismatch_warnings_spec(h1: HeaderModel, h2: HeaderModel) -> Seq<Seq<char>> {
    (if h1.depth != h2.depth {
        seq![
            "warning: depth mismatch ("@ + decimal(h1.depth as nat) + " vs "@ + decimal(
                h2.depth as nat,
            ) + "), comparing available entries"@,
        ]
    } else {
        Seq::empty()
    }) + (if h1.path != h2.path {
        seq!["warning: different root paths ("@ + h1.path + " vs "@ + h2.path + ")"@]
    } else {
        Seq::empty()
    }) + (if h1.mode != h2.mode {
        seq![
            "warning: mode mismatch ("@ + h1.mode + " vs "@ + h2.mode
                + "), results may not be meaningful"@,
        ]
    } else {
        Seq::empty()
    })
}

/// The warnings about two manifests' headers, one line each, without line feeds.
pub fn mismatch_warnings(h1: &ManifestHeader, h2: &ManifestHeader) -> (w: Vec<String>)
    ensures
        texts_of(w@) == mismatch_warnings_spec(h1@, h2@),
{
    let mut w: Vec<String> = Vec::new();
    let ghost a: Seq<Seq<char>>;
    if h1.depth != h2.depth {
        let mut m = chars_of("warning: depth mismatch (");
        push_decimal(&mut m, h1.depth as u64);
        push_str(&mut m, " vs ");
        push_decimal(&mut m, h2.depth as u64);
        push_str(&mut m, "), comparing available entries");
        w.push(string_of(&m));
    }
    proof {
        a = texts_of(w@);
    }
    assert(a =~= (if h1@.depth != h2@.depth {
        seq![
            "warning: depth mismatch ("@ + decimal(h1@.depth as nat) + " vs "@ + decimal(
                h2@.depth as nat,
            ) + "), comparing available entries"@,
        ]
    } else {
        Seq::<Seq<char>>::empty()
    }));
    if !(h1.path == h2.path) {
        let mut m = chars_of("warning: different root paths (");
        push_str(&mut m, h1.path.as_str());
        push_str(&mut m, " vs ");
        push_str(&mut m, h2.path.as_str());
        push_str(&mut m, ")");
        w.push(string_of(&m));
    }
    let ghost b = texts_of(w@);
    assert(b =~= a + (if h1@.path != h2@.path {
        seq!["warning: different root paths ("@ + h1@.path + " vs "@ + h2@.path + ")"@]
    } else {
        Seq::<Seq<char>>::empty()
    }));
    if !(h1.mode == h2.mode) {
        let mut m = chars_of("warning: mode mismatch (");
        push_str(&mut m, h1.mode.as_str());
        push_str(&mut m, " vs ");
        push_str(&mut m, h2.mode.as_str());
        push_str(&mut m, "), results may not be meaningful");
        w.push(string_of(&m));
    }
    assert(texts_of(w@) =~= mismatch_warnings_spec(h1@, h2@));
    w
}

/// The number of directory entries of a manifest.
pub open spec fn count_dirs_spec(es: Seq<FlatEntry>) -> nat
    decreases es.len(),
{
    if es.len() == 0 {
        0
    } else {
        count_dirs_spec(es.drop_last()) + if es.last().entry_type == EntryType::Dir {
            1nat
        } else {
            0nat
        }
    }
}

/// The number of directory entries of a manifest.
pub fn count_dirs(entries: &[FlatEntry]) -> (n: usize)
    ensures
        n == count_dirs_spec(entries@),
{
    let mut n: usize = 0;
    let mut i: usize = 0;
    assert(entries@.take(0) =~= Seq::<FlatEntry>::empty());
    while i < entries.len()
        invariant
            i <= entries@.len(),
            n == count_dirs_spec(entries@.take(i as int)),
            n <= i,
        decreases entries@.len() - i,
    {
        assert(entries@.take(i + 1).drop_last() =~= entries@.take(i as int));
        if entries[i].entry_type == EntryType::Dir {
            n = n + 1;
        }
        i = i + 1;
    }
    assert(entries@.take(entries@.len() as int) =~= entries@);
    n
}

/// Whether a manifest header names the fast, metadata-only mode.
pub fn is_fast_mode(header: &ManifestHeader) -> (fast: bool)
    ensures
        fast == (header.mode@ == "fast"@),
{
    let fast = chars_of("fast");
    let mode = chars_of(header.mode.as_str());
    crate::text::chars_eq(mode.as_slice(), fast.as_slice())
}

/// The mode a fingerprint records: `fast` for metadata-only hashing, else `content`.
pub fn mode_name(metadata: bool) -> (mode: String)
    ensures
        mode@ == (if metadata { "fast"@ } else { "content"@ }),
{
    if metadata {
        string_of(&chars_of("fast"))
    } else {
        string_of(&chars_of("content"))
    }
}

/// A directory entry, given as (name, is a regular file), as values.
pub open spec fn dir_entry_views(entries: Seq<(String, bool)>) -> Seq<(Seq<char>, bool)> {
    entries.map_values(|e: (String, bool)| (e.0@, e.1))
}

/// Whether a directory entry is a fingerprint file: a regular file with extension `txt`.
pub open spec fn is_fingerprint_file(e: (Seq<char>, bool)) -> bool {
    e.1 && name_extension(e.0) == Some("txt"@)
}

/// The names of the fingerprint files among directory entries, in the entries' order.
pub open spec fn fingerprint_names(entries: Seq<(Seq<char>, bool)>) -> Seq<Seq<char>>
    decreases entries.len(),
{
    if entries.len() == 0 {
        Seq::empty()
    } else {
        fingerprint_names(entries.drop_last()) + if is_fingerprint_file(entries.last()) {
            seq![entries.last().0]
        } else {
            Seq::empty()
        }
    }
}

/// The two fingerprint files of a directory, in text order, when it holds exactly two;
/// else the number it holds.
pub open spec fn fingerprint_pair_spec(entries: Seq<(Seq<char>, bool)>) -> Result<
    (Seq<char>, Seq<char>),
    nat,
> {
    let names = fingerprint_names(entries);
    if names.len() != 2 {
        Err(names.len())
    } else if chars_le(names[0], names[1]) {
        Ok((names[0], names[1]))
    } else {
        Ok((names[1], names[0]))
    }
}

/// The two fingerprint files among a directory's entries, given as (name, is a regular
/// file): the regular files with extension `txt`, in text order, when there are exactly
/// two; else the number found.
pub fn pick_fingerprint_pair(entries: &[(String, bool)]) -> (r: Result<(String, String), usize>)
    ensures
        match r {
            Ok((a, b)) => fingerprint_pair_spec(dir_entry_views(entries@)) == Ok::<
                (Seq<char>, Seq<char>),
                nat,
            >((a@, b@)),
            Err(n) => fingerprint_pair_spec(dir_entry_views(entries@)) == Err::<
                (Seq<char>, Seq<char>),
                nat,
            >(n as nat),
        },
{
    let ghost v = dir_entry_views(entries@);
    let mut names: Vec<Vec<char>> = Vec::new();
    let mut i: usize = 0;
    while i < entries.len()
        invariant
            i <= entries@.len(),
            v == dir_entry_views(entries@),
            names@.len() <= i,
            names@.map_values(|c: Vec<char>| c@) == fingerprint_names(v.take(i as int)),
        decreases entries@.len() - i,
    {
        let name = chars_of(entries[i].0.as_str());
        assert(v[i as int] == (name@, entries[i as int].1));
        assert(v.take(i + 1).drop_last() =~= v.take(i as int));
        assert(v.take(i + 1).last() == v[i as int]);
        let ghost before = names@;
        let is_txt = match name_extension_exec(name.as_slice()) {
            Some(ext) => {
                let txt = chars_of("txt");
                chars_eq(ext.as_slice(), txt.as_slice())
            },
            None => false,
        };
        if entries[i].1 && is_txt {
            names.push(name);
            assert(names@.map_values(|c: Vec<char>| c@) =~= before.map_values(|c: Vec<char>| c@)
                + seq![v[i as int].0]);
        }
        i = i + 1;
    }
    assert(v.take(entries@.len() as int) =~= v);
    let ghost fv = names@.map_values(|c: Vec<char>| c@);
    if names.len() != 2 {
        return Err(names.len());
    }
    assert(fv[0] == names@[0]@ && fv[1] == names@[1]@);
    let first = names[0].as_slice();
    let second = names[1].as_slice();
    if chars_le_exec(first, second) {
        Ok((string_of(first), string_of(second)))
    } else {
        Ok((string_of(second), string_of(first)))
    }
}

/// The output depth when none is given.
pub open spec fn default_depth() -> usize {
    10
}

/// The depth and the metadata-only choice of a fingerprint: those of the reference
/// manifest when one is given (its mode `fast` meaning metadata-only), else the depth
/// given, or the default depth of 10, and the mode asked for.
pub open spec fn settings_spec(reference: Option<HeaderModel>, depth: Option<usize>, metadata: bool) -> (
    usize,
    bool,
) {
    match reference {
        Some(h) => (h.depth, h.mode == "fast"@),
        None => (
            match depth {
                Some(d) => d,
                None => default_depth(),
            },
            metadata,
        ),
    }
}

/// The settings a fingerprint is made with: `--match-settings` takes depth and mode from a
/// reference manifest's header; otherwise the depth given (default 10) and the mode asked
/// for.
pub fn resolve_settings(reference: Option<&ManifestHeader>, depth: Option<usize>, metadata: bool) -> (r: (
    usize,
    bool,
))
    ensures
        r == settings_spec(
            match reference {
                Some(h) => Some(h@),
                None => None,
            },
            depth,
            metadata,
        ),
{
    match reference {
        Some(h) => (h.depth, is_fast_mode(h)),
        None => (
            match depth {
                Some(d) => d,
                None => 10,
            },
            metadata,
        ),
    }
}

/// Without a reference manifest, a fingerprint is made in the mode asked for, whatever the
/// depth, and with the depth asked for (or 10), whatever the mode; with one, the
/// reference decides both, and what was asked for does not matter.
pub proof fn lemma_settings_follow_the_request(
    reference: Option<HeaderModel>,
    depth: Option<usize>,
    depth2: Option<usize>,
    metadata: bool,
    metadata2: bool,
)
    ensures
        reference is None ==> settings_spec(reference, depth, metadata).1 == metadata,
        reference is None ==> settings_spec(reference, depth, metadata).0 == settings_spec(
            reference,
            depth,
            metadata2,
        ).0,
        reference is None ==> settings_spec(reference, Some(10), metadata) == settings_spec(
            reference,
            None,
            metadata,
        ),
        reference is None ==> (depth matches Some(d) ==> settings_spec(reference, depth, metadata).0
            == d),
        reference matches Some(h) ==> settings_spec(reference, depth, metadata) == settings_spec(
            reference,
            depth2,
            metadata2,
        ) && settings_spec(reference, depth, metadata).0 == h.depth,
{
}

/// A comparison warns about two headers exactly when they differ in depth, root path or
/// mode, once for each of these that differs, each warning beginning with `warning: `;
/// the warnings do not depend on which header comes first but for the order of the two
/// values they name.
pub proof fn lemma_mismatch_warnings_count(h1: HeaderModel, h2: HeaderModel)
    ensures
        mismatch_warnings_spec(h1, h2).len() == (if h1.depth != h2.depth { 1int } else { 0 }) + (
        if h1.path != h2.path { 1int } else { 0 }) + (if h1.mode != h2.mode { 1int } else { 0 }),
        mismatch_warnings_spec(h1, h2).len() == 0 <==> (h1.depth == h2.depth && h1.path == h2.path
            && h1.mode == h2.mode),
        mismatch_warnings_spec(h1, h2).len() == mismatch_warnings_spec(h2, h1).len(),
        forall|k: int|
            0 <= k < mismatch_warnings_spec(h1, h2).len() ==> (#[trigger] mismatch_warnings_spec(
                h1,
                h2,
            )[k]).subrange(0, 9) == "warning: "@,
{
    reveal_strlit("warning: ");
    reveal_strlit("warning: depth mismatch (");
    reveal_strlit("warning: different root paths (");
    reveal_strlit("warning: mode mismatch (");
    let w = mismatch_warnings_spec(h1, h2);
    assert forall|k: int| 0 <= k < w.len() implies (#[trigger] w[k]).subrange(0, 9) == "warning: "@ by {
        let a = "warning: depth mismatch ("@;
        let b = "warning: different root paths ("@;
        let c = "warning: mode mismatch ("@;
        assert(a.subrange(0, 9) =~= "warning: "@);
        assert(b.subrange(0, 9) =~= "warning: "@);
        assert(c.subrange(0, 9) =~= "warning: "@);
        let x = w[k];
        assert(x.subrange(0, 9) =~= "warning: "@);
    }
}

/// The file name of a fingerprint begins with the host name and ends with `.txt`; with a
/// non-empty tag it is the host, `-`, the tag and `.txt`; with an empty tag the tag's place
/// holds the date, each `:` turned into `-` so that the name holds no colon of the date.
pub proof fn lemma_output_file_name_shape(host: Seq<char>, tag: Option<Seq<char>>, date: Seq<char>)
    ensures
        output_file_name_spec(host, tag, date).subrange(0, host.len() as int) == host,
        output_file_name_spec(host, tag, date).len() >= host.len() + 4,
        output_file_name_spec(host, tag, date).subrange(
            output_file_name_spec(host, tag, date).len() - 4,
            output_file_name_spec(host, tag, date).len() as int,
        ) == ".txt"@,
        tag == Some(Seq::<char>::empty()) ==> ({
            let n = output_file_name_spec(host, tag, date);
            &&& n.len() == host.len() + 1 + date.len() + 4
            &&& n[host.len() as int] == '-'
            &&& forall|x: int|
                0 <= x < date.len() ==> #[trigger] n[host.len() + 1 + x] != ':' && (date[x] != ':'
                    ==> n[host.len() + 1 + x] == date[x])
        }),
        forall|t: Seq<char>|
            t.len() > 0 && tag == Some(t) ==> #[trigger] output_file_name_spec(host, Some(t), date)
                == host + seq!['-'] + t + ".txt"@,
        tag is None ==> output_file_name_spec(host, tag, date) == host + ".txt"@,
{
    reveal_strlit(".txt");
    let n = output_file_name_spec(host, tag, date);
    assert(n.subrange(0, host.len() as int) =~= host);
    assert(n.subrange(n.len() - 4, n.len() as int) =~= ".txt"@);
    if tag == Some(Seq::<char>::empty()) {
        assert forall|x: int| 0 <= x < date.len() implies #[trigger] n[host.len() + 1 + x] != ':' && (
        date[x] != ':' ==> n[host.len() + 1 + x] == date[x]) by {
            assert(n[host.len() + 1 + x] == colons_to_dashes(date)[x]);
        }
    }
}

/// A name is among the fingerprint names of directory entries exactly when some entry
/// with that name is a fingerprint file.
proof fn lemma_fingerprint_names_members(entries: Seq<(Seq<char>, bool)>, x: Seq<char>)
    ensures
        fingerprint_names(entries).contains(x) <==> exists|j: int|
            0 <= j < entries.len() && is_fingerprint_file(#[trigger] entries[j]) && entries[j].0 == x,
    decreases entries.len(),
{
    if entries.len() > 0 {
        let prev = entries.drop_last();
        lemma_fingerprint_names_members(prev, x);
        let f = fingerprint_names(entries);
        let fp = fingerprint_names(prev);
        if fp.contains(x) {
            let k = choose|k: int| 0 <= k < fp.len() && fp[k] == x;
            assert(f[k] == fp[k]);
            let j = choose|j: int| 0 <= j < prev.len() && is_fingerprint_file(#[trigger] prev[j]) && prev[j].0 == x;
            assert(entries[j] == prev[j]);
        }
        if f.contains(x) && !fp.contains(x) {
            let k = choose|k: int| 0 <= k < f.len() && f[k] == x;
            if k < fp.len() {
                assert(f[k] == fp[k]);
            }
            assert(is_fingerprint_file(entries[entries.len() - 1]));
        }
        if exists|j: int| 0 <= j < entries.len() && is_fingerprint_file(#[trigger] entries[j]) && entries[j].0 == x {
            let j = choose|j: int| 0 <= j < entries.len() && is_fingerprint_file(#[trigger] entries[j]) && entries[j].0 == x;
            if j < prev.len() {
                assert(prev[j] == entries[j]);
            } else {
                assert(f[fp.len() as int] == x);
            }
        }
    }
}

/// The fingerprint pair of a directory, when there is one, is two names of fingerprint
/// files (regular files with extension `txt`) among its entries, in text order, and every
/// fingerprint file among them bears one of the two names; when there is none, the number
/// reported is not two, and is zero exactly when no entry is a fingerprint file.
pub proof fn lemma_fingerprint_pair_picks(entries: Seq<(Seq<char>, bool)>)
    ensures
        fingerprint_pair_spec(entries) matches Ok((a, b)) ==> {
            &&& chars_le(a, b)
            &&& exists|j: int| 0 <= j < entries.len() && is_fingerprint_file(#[trigger] entries[j]) && entries[j].0 == a
            &&& exists|j: int| 0 <= j < entries.len() && is_fingerprint_file(#[trigger] entries[j]) && entries[j].0 == b
            &&& forall|j: int|
                0 <= j < entries.len() && is_fingerprint_file(#[trigger] entries[j]) ==> entries[j].0 == a
                    || entries[j].0 == b
        },
        fingerprint_pair_spec(entries) matches Err(n) ==> n != 2 && (n == 0 <==> forall|j: int|
            0 <= j < entries.len() ==> !is_fingerprint_file(#[trigger] entries[j])),
{
    let f = fingerprint_names(entries);
    lemma_fingerprint_names_members(entries, f[0]);
    lemma_fingerprint_names_members(entries, f[1]);
    if f.len() == 2 && !chars_le(f[0], f[1]) {
        crate::order::lemma_chars_le_total(f[0], f[1]);
    }
    assert(f.len() == 2 ==> f.contains(f[0]) && f.contains(f[1]));
    assert forall|j: int| 0 <= j < entries.len() && is_fingerprint_file(#[trigger] entries[j]) implies f.contains(
        entries[j].0,
    ) by {
        lemma_fingerprint_names_members(entries, entries[j].0);
    }
    if f.len() > 0 {
        assert(f.contains(f[0]));
    }
}

} // verus!
