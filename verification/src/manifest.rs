//! The manifest text format: writing a header and entries, and parsing them back.
//!
//! A manifest is a sequence of lines, each ended by a line feed. Header lines begin with
//! `# ` and hold `key: value` pairs; every other non-empty line is an entry written as
//! `type:value<TAB>path`.

use vstd::prelude::*;
use crate::calendar::{
    civil_date, days_before_month, days_before_year, days_from_civil, is_leap_year,
    lemma_civil_date, lemma_eras, lemma_months_fill_year, lemma_year_step, month_length,
    valid_date, year_length,
};
use crate::hash::hash_hex;
use crate::merkle::{
    EntryType, EntryView, FlatEntry, InputModel, flat_views, inputs_distinct, inputs_sorted,
    lemma_manifest_deterministic, lemma_order_independent, manifest_listing, manifest_root,
    paths_distinct, sorted_by_path,
};
use crate::text::{
    is_whitespace, lemma_decimal_parses, lemma_find_from_first, lemma_find_from_none,
    lemma_parse_decimal, lemma_split_lines_nonempty, lemma_split_once_char, lemma_trim_end_keeps,
    matches_at, chars_eq, chars_of, decimal, parse_u64, parse_unsigned, push_all, push_decimal, push_str,
    split_lines, split_lines_exec, split_once, split_once_exec, starts_with, starts_with_exec,
    slice_copy, string_of, trim_end, trim_end_exec,
};

verus! {

pub struct ManifestHeader {
    pub host: String,
    pub path: String,
    pub depth: usize,
    pub date: String,
    pub total_files: usize,
    pub total_dirs: usize,
    pub total_bytes: u64,
    pub root_hash: String,
    /// Fingerprint mode: "content" (default) or "fast" (metadata-only).
    pub mode: String,
}

/// A manifest header as values.
#[verifier::ext_equal]
pub struct HeaderModel {
    pub host: Seq<char>,
    pub path: Seq<char>,
    pub depth: usize,
    pub date: Seq<char>,
    pub total_files: usize,
    pub total_dirs: usize,
    pub total_bytes: u64,
    pub root_hash: Seq<char>,
    pub mode: Seq<char>,
}

impl View for ManifestHeader {
    type V = HeaderModel;

    open spec fn view(&self) -> HeaderModel {
        HeaderModel {
            host: self.host@,
            path: self.path@,
            depth: self.depth,
            date: self.date@,
            total_files: self.total_files,
            total_dirs: self.total_dirs,
            total_bytes: self.total_bytes,
            root_hash: self.root_hash@,
            mode: self.mode@,
        }
    }
}

/// A parsed manifest entry (from a fingerprint file).
#[derive(Debug, PartialEq)]
pub struct ManifestEntry {
    pub entry_type: EntryType,
    pub value: String,
    pub path: String,
}

impl View for ManifestEntry {
    type V = EntryView;

    open spec fn view(&self) -> EntryView {
        (self.entry_type, self.value@, self.path@)
    }
}

/// The views of a sequence of parsed entries.
pub open spec fn entry_views(s: Seq<ManifestEntry>) -> Seq<EntryView> {
    s.map_values(|e: ManifestEntry| e@)
}

/// The error of the `std::io` module.
#[verifier::external_type_specification]
#[verifier::external_body]
pub struct ExIoError(std::io::Error);

#[derive(Debug)]
pub enum ParseError {
    Io(std::io::Error),
    Format(String),
}

/// The text of an I/O error, as its `Display` writes it.
///
/// Calls `<std::io::Error as ToString>::to_string`. Nothing is stated of the text: for an
/// error of the operating system it is the system's own message.
#[verifier::external_body]
fn io_error_text(e: &std::io::Error) -> String {
    e.to_string()
}

impl ParseError {
    /// The message of the error: `I/O error: ...` or `format error: ...`.
    pub fn to_string(&self) -> (text: String)
        ensures
            match self {
                ParseError::Format(msg) => text@ == "format error: "@ + msg@,
                ParseError::Io(_) => "I/O error: "@.is_prefix_of(text@),
            },
    {
        match self {
            ParseError::Io(e) => {
                let mut out = chars_of("I/O error: ");
                let detail = io_error_text(e);
                push_str(&mut out, detail.as_str());
                proof {
                    reveal_strlit("I/O error: ");
                }
                assert(out@.take("I/O error: "@.len() as int) =~= "I/O error: "@);
                string_of(&out)
            },
            ParseError::Format(msg) => {
                let mut out = chars_of("format error: ");
                push_str(&mut out, msg.as_str());
                string_of(&out)
            },
        }
    }
}

impl From<std::io::Error> for ParseError {
    fn from(e: std::io::Error) -> (r: Self) {
        ParseError::Io(e)
    }
}

impl vstd::std_specs::convert::FromSpecImpl<std::io::Error> for ParseError {
    open spec fn obeys_from_spec() -> bool {
        true
    }

    open spec fn from_spec(e: std::io::Error) -> ParseError {
        ParseError::Io(e)
    }
}

/// The text of a type tag.
pub open spec fn type_tag(t: EntryType) -> Seq<char> {
    match t {
        EntryType::Blake3 => "blake3"@,
        EntryType::Dataless => "dataless"@,
        EntryType::Error => "error"@,
        EntryType::Symlink => "symlink"@,
        EntryType::Dir => "dir"@,
    }
}

/// The entry type a tag names, if it names one.
pub open spec fn parse_type(s: Seq<char>) -> Option<EntryType> {
    if s == "blake3"@ {
        Some(EntryType::Blake3)
    } else if s == "dataless"@ {
        Some(EntryType::Dataless)
    } else if s == "error"@ {
        Some(EntryType::Error)
    } else if s == "symlink"@ {
        Some(EntryType::Symlink)
    } else if s == "dir"@ {
        Some(EntryType::Dir)
    } else {
        None
    }
}

/// A header line, without its line feed: `# key: value`.
pub open spec fn header_text_line(key: Seq<char>, value: Seq<char>) -> Seq<char> {
    seq!['#', ' '] + key + seq![':', ' '] + value
}

/// The header lines of a manifest, without their line feeds.
pub open spec fn header_lines(h: HeaderModel) -> Seq<Seq<char>> {
    seq![
        seq!['#', ' '] + "sumpig fingerprint"@,
        header_text_line("version"@, "2"@),
        header_text_line("host"@, h.host),
        header_text_line("path"@, h.path),
        header_text_line("depth"@, decimal(h.depth as nat)),
        header_text_line("date"@, h.date),
        header_text_line("total_files"@, decimal(h.total_files as nat)),
        header_text_line("total_dirs"@, decimal(h.total_dirs as nat)),
        header_text_line("total_bytes"@, decimal(h.total_bytes as nat)),
        header_text_line("root"@, h.root_hash),
        header_text_line("mode"@, h.mode),
    ]
}

/// The line of an entry, without its line feed: `type:value<TAB>path`.
pub open spec fn entry_line(e: EntryView) -> Seq<char> {
    type_tag(e.0) + seq![':'] + e.1 + seq!['\t'] + e.2
}

/// Lines joined into text, each followed by a line feed.
pub open spec fn lines_text(ls: Seq<Seq<char>>) -> Seq<char>
    decreases ls.len(),
{
    if ls.len() == 0 {
        Seq::empty()
    } else {
        lines_text(ls.drop_last()) + ls.last() + seq!['\n']
    }
}

/// The lines of entries, in order.
pub open spec fn entry_lines(es: Seq<EntryView>) -> Seq<Seq<char>> {
    es.map_values(|e: EntryView| entry_line(e))
}

/// The text of a manifest: its header lines, then one line per entry.
pub open spec fn manifest_text(h: HeaderModel, es: Seq<EntryView>) -> Seq<char> {
    lines_text(header_lines(h) + entry_lines(es))
}

/// The header a parse starts from: empty texts, zero counts and mode `content`.
pub open spec fn default_header() -> HeaderModel {
    HeaderModel {
        host: Seq::empty(),
        path: Seq::empty(),
        depth: 0,
        date: Seq::empty(),
        total_files: 0,
        total_dirs: 0,
        total_bytes: 0,
        root_hash: Seq::empty(),
        mode: "content"@,
    }
}

/// The header after reading one `key: value` pair. Numeric fields must parse as
/// `str::parse` reads them, else the parse fails with a message naming the field.
pub open spec fn header_field(h: HeaderModel, key: Seq<char>, value: Seq<char>) -> Result<
    HeaderModel,
    Seq<char>,
> {
    if key == "host"@ {
        Ok(HeaderModel { host: value, ..h })
    } else if key == "path"@ {
        Ok(HeaderModel { path: value, ..h })
    } else if key == "depth"@ {
        match parse_unsigned(value, usize::MAX as nat) {
            Some(n) => Ok(HeaderModel { depth: n as usize, ..h }),
            None => Err("invalid depth: "@ + value),
        }
    } else if key == "date"@ {
        Ok(HeaderModel { date: value, ..h })
    } else if key == "total_files"@ {
        match parse_unsigned(value, usize::MAX as nat) {
            Some(n) => Ok(HeaderModel { total_files: n as usize, ..h }),
            None => Err("invalid total_files: "@ + value),
        }
    } else if key == "total_dirs"@ {
        match parse_unsigned(value, usize::MAX as nat) {
            Some(n) => Ok(HeaderModel { total_dirs: n as usize, ..h }),
            None => Err("invalid total_dirs: "@ + value),
        }
    } else if key == "total_bytes"@ {
        match parse_unsigned(value, u64::MAX as nat) {
            Some(n) => Ok(HeaderModel { total_bytes: n as u64, ..h }),
            None => Err("invalid total_bytes: "@ + value),
        }
    } else if key == "root"@ {
        Ok(HeaderModel { root_hash: value, ..h })
    } else if key == "mode"@ {
        Ok(HeaderModel { mode: value, ..h })
    } else {
        Ok(h)
    }
}

/// The header after a header line whose text after `# ` is `rest`; a line without `: `
/// leaves it as it was.
pub open spec fn header_line(h: HeaderModel, rest: Seq<char>) -> Result<HeaderModel, Seq<char>> {
    match split_once(rest, ": "@) {
        Some((key, value)) => header_field(h, key, value),
        None => Ok(h),
    }
}

/// The entry that a data line holds, or the message for a malformed one.
pub open spec fn data_line(line: Seq<char>) -> Result<EntryView, Seq<char>> {
    match split_once(line, seq!['\t']) {
        None => Err("invalid data line: "@ + line),
        Some((type_value, path)) => match split_once(type_value, seq![':']) {
            None => Err("invalid type:value in data line: "@ + line),
            Some((type_str, value)) => match parse_type(type_str) {
                Some(t) => Ok((t, value, path)),
                None => Err("unknown entry type: "@ + type_str),
            },
        },
    }
}

/// Whether a trimmed line is a header line.
pub open spec fn is_header_line(line: Seq<char>) -> bool {
    starts_with(line, "# "@)
}

/// The header and entries read so far.
pub type ParseState = (HeaderModel, Seq<EntryView>);

/// The state after one line of a manifest. The line is first trimmed at its end; empty
/// lines change nothing.
pub open spec fn parse_line(st: ParseState, raw: Seq<char>) -> Result<ParseState, Seq<char>> {
    let line = trim_end(raw);
    if line.len() == 0 {
        Ok(st)
    } else if is_header_line(line) {
        match header_line(st.0, line.skip(2)) {
            Ok(h) => Ok((h, st.1)),
            Err(m) => Err(m),
        }
    } else {
        match data_line(line) {
            Ok(e) => Ok((st.0, st.1.push(e))),
            Err(m) => Err(m),
        }
    }
}

/// The result of reading the lines in order from `st`; the first error ends the parse.
pub open spec fn parse_lines(lines: Seq<Seq<char>>, st: ParseState) -> Result<ParseState, Seq<char>>
    decreases lines.len(),
{
    if lines.len() == 0 {
        Ok(st)
    } else {
        match parse_line(st, lines[0]) {
            Ok(next) => parse_lines(lines.drop_first(), next),
            Err(m) => Err(m),
        }
    }
}

/// The header and entries a manifest text holds, or the message of its first error.
pub open spec fn manifest_parse(text: Seq<char>) -> Result<ParseState, Seq<char>> {
    parse_lines(split_lines(text), (default_header(), Seq::empty()))
}

/// The header read from `lines`, stopping at the first data line.
pub open spec fn header_only_lines(lines: Seq<Seq<char>>, h: HeaderModel) -> Result<
    HeaderModel,
    Seq<char>,
>
    decreases lines.len(),
{
    if lines.len() == 0 {
        Ok(h)
    } else {
        let line = trim_end(lines[0]);
        if line.len() == 0 {
            header_only_lines(lines.drop_first(), h)
        } else if is_header_line(line) {
            match header_line(h, line.skip(2)) {
                Ok(next) => header_only_lines(lines.drop_first(), next),
                Err(m) => Err(m),
            }
        } else {
            Ok(h)
        }
    }
}

/// The header of a manifest text, read up to its first data line.
pub open spec fn manifest_header_parse(text: Seq<char>) -> Result<HeaderModel, Seq<char>> {
    header_only_lines(split_lines(text), default_header())
}


/// The views of a sequence of character vectors.
pub open spec fn lines_view(ls: Seq<Vec<char>>) -> Seq<Seq<char>> {
    ls.map_values(|l: Vec<char>| l@)
}

/// The text of a type tag.
fn type_tag_chars(t: EntryType) -> (v: Vec<char>)
    ensures
        v@ == type_tag(t),
{
    match t {
        EntryType::Blake3 => chars_of("blake3"),
        EntryType::Dataless => chars_of("dataless"),
        EntryType::Error => chars_of("error"),
        EntryType::Symlink => chars_of("symlink"),
        EntryType::Dir => chars_of("dir"),
    }
}

/// Lines joined into text, each followed by a line feed.
fn lines_to_text(lines: &Vec<Vec<char>>) -> (v: Vec<char>)
    ensures
        v@ == lines_text(lines_view(lines@)),
{
    let ghost ls = lines_view(lines@);
    let mut out: Vec<char> = Vec::new();
    let mut i: usize = 0;
    while i < lines.len()
        invariant
            i <= lines@.len(),
            ls == lines_view(lines@),
            out@ == lines_text(ls.take(i as int)),
        decreases lines@.len() - i,
    {
        push_all(&mut out, lines[i].as_slice());
        out.push('\n');
        assert(ls.take(i + 1).drop_last() == ls.take(i as int));
        i = i + 1;
    }
    assert(ls.take(lines@.len() as int) == ls);
    out
}

/// A header line `# key: value`.
fn header_line_chars(key: &str, value: &str) -> (v: Vec<char>)
    ensures
        v@ == header_text_line(key@, value@),
{
    let mut l: Vec<char> = Vec::new();
    l.push('#');
    l.push(' ');
    push_str(&mut l, key);
    l.push(':');
    l.push(' ');
    push_str(&mut l, value);
    assert(l@ =~= header_text_line(key@, value@));
    l
}

/// A header line whose value is a number.
fn header_number_chars(key: &str, n: u64) -> (v: Vec<char>)
    ensures
        v@ == header_text_line(key@, decimal(n as nat)),
{
    let mut l: Vec<char> = Vec::new();
    l.push('#');
    l.push(' ');
    push_str(&mut l, key);
    l.push(':');
    l.push(' ');
    push_decimal(&mut l, n);
    assert(l@ =~= header_text_line(key@, decimal(n as nat)));
    l
}

/// The line of an entry, without its line feed.
fn entry_line_chars(entry: &FlatEntry) -> (v: Vec<char>)
    ensures
        v@ == entry_line(entry@),
{
    let mut l = type_tag_chars(entry.entry_type);
    l.push(':');
    push_str(&mut l, entry.value.as_str());
    l.push('\t');
    push_str(&mut l, entry.path.as_str());
    l
}

/// Write a manifest header and entries: the text of the manifest.
pub fn write_manifest(header: &ManifestHeader, entries: &[FlatEntry]) -> (text: String)
    ensures
        text@ == manifest_text(header@, flat_views(entries@)),
{
    let mut lines: Vec<Vec<char>> = Vec::new();
    let mut first: Vec<char> = Vec::new();
    first.push('#');
    first.push(' ');
    push_str(&mut first, "sumpig fingerprint");
    assert(first@ =~= seq!['#', ' '] + "sumpig fingerprint"@);
    lines.push(first);
    lines.push(header_line_chars("version", "2"));
    lines.push(header_line_chars("host", header.host.as_str()));
    lines.push(header_line_chars("path", header.path.as_str()));
    lines.push(header_number_chars("depth", header.depth as u64));
    lines.push(header_line_chars("date", header.date.as_str()));
    lines.push(header_number_chars("total_files", header.total_files as u64));
    lines.push(header_number_chars("total_dirs", header.total_dirs as u64));
    lines.push(header_number_chars("total_bytes", header.total_bytes));
    lines.push(header_line_chars("root", header.root_hash.as_str()));
    lines.push(header_line_chars("mode", header.mode.as_str()));
    let ghost head = lines_view(lines@);
    assert(head =~= header_lines(header@));
    let mut i: usize = 0;
    while i < entries.len()
        invariant
            i <= entries@.len(),
            lines_view(lines@) == head + flat_views(entries@).take(i as int).map_values(
                |e: EntryView| entry_line(e),
            ),
        decreases entries@.len() - i,
    {
        let ghost before = lines_view(lines@);
        let l = entry_line_chars(&entries[i]);
        lines.push(l);
        assert(lines_view(lines@) =~= before.push(l@));
        assert(flat_views(entries@).take(i + 1).map_values(|e: EntryView| entry_line(e))
            =~= flat_views(entries@).take(i as int).map_values(|e: EntryView| entry_line(e)).push(
            entry_line(entries@[i as int]@),
        ));
        i = i + 1;
    }
    assert(flat_views(entries@).take(entries@.len() as int) =~= flat_views(entries@));
    let text = lines_to_text(&lines);
    string_of(&text)
}


/// The header a parse starts from.
fn default_header_exec() -> (h: ManifestHeader)
    ensures
        h@ == default_header(),
{
    ManifestHeader {
        host: String::new(),
        path: String::new(),
        depth: 0,
        date: String::new(),
        total_files: 0,
        total_dirs: 0,
        total_bytes: 0,
        root_hash: String::new(),
        mode: string_of(&chars_of("content")),
    }
}

/// `str::parse::<usize>` over characters.
fn parse_usize(v: &[char]) -> (r: Option<usize>)
    ensures
        match parse_unsigned(v@, usize::MAX as nat) {
            Some(n) => r == Some(n as usize),
            None => r is None,
        },
{
    match parse_u64(v) {
        Some(n) => {
            if n <= usize::MAX as u64 {
                Some(n as usize)
            } else {
                None
            }
        },
        None => None,
    }
}

/// Whether a header key is the given name.
fn is_key(key: &[char], name: &str) -> (r: bool)
    ensures
        r == (key@ == name@),
{
    let n = chars_of(name);
    chars_eq(key, n.as_slice())
}

/// An error message: a label followed by the text it is about.
fn message(label: &str, value: &[char]) -> (v: Vec<char>)
    ensures
        v@ == label@ + value@,
{
    let mut m = chars_of(label);
    push_all(&mut m, value);
    m
}

/// Reads one `key: value` pair into the header.
fn header_field_exec(h: &mut ManifestHeader, key: &[char], value: &[char]) -> (r: Result<
    (),
    Vec<char>,
>)
    ensures
        match header_field(old(h)@, key@, value@) {
            Ok(next) => r is Ok && final(h)@ == next,
            Err(m) => r matches Err(v) && v@ == m,
        },
{
    if is_key(key, "host") {
        h.host = string_of(value);
    } else if is_key(key, "path") {
        h.path = string_of(value);
    } else if is_key(key, "depth") {
        match parse_usize(value) {
            Some(n) => h.depth = n,
            None => return Err(message("invalid depth: ", value)),
        }
    } else if is_key(key, "date") {
        h.date = string_of(value);
    } else if is_key(key, "total_files") {
        match parse_usize(value) {
            Some(n) => h.total_files = n,
            None => return Err(message("invalid total_files: ", value)),
        }
    } else if is_key(key, "total_dirs") {
        match parse_usize(value) {
            Some(n) => h.total_dirs = n,
            None => return Err(message("invalid total_dirs: ", value)),
        }
    } else if is_key(key, "total_bytes") {
        match parse_u64(value) {
            Some(n) => h.total_bytes = n,
            None => return Err(message("invalid total_bytes: ", value)),
        }
    } else if is_key(key, "root") {
        h.root_hash = string_of(value);
    } else if is_key(key, "mode") {
        h.mode = string_of(value);
    }
    Ok(())
}

/// Reads a header line, given the text after its `# `.
fn header_line_exec(h: &mut ManifestHeader, rest: &[char]) -> (r: Result<(), Vec<char>>)
    ensures
        match header_line(old(h)@, rest@) {
            Ok(next) => r is Ok && final(h)@ == next,
            Err(m) => r matches Err(v) && v@ == m,
        },
{
    let sep = chars_of(": ");
    match split_once_exec(rest, sep.as_slice()) {
        Some((key, value)) => header_field_exec(h, key.as_slice(), value.as_slice()),
        None => Ok(()),
    }
}

/// Parse an entry type string into the EntryType enum.
fn parse_entry_type(s: &[char]) -> (r: Result<EntryType, Vec<char>>)
    ensures
        match parse_type(s@) {
            Some(t) => r == Ok::<EntryType, Vec<char>>(t),
            None => r matches Err(v) && v@ == "unknown entry type: "@ + s@,
        },
{
    if is_key(s, "blake3") {
        Ok(EntryType::Blake3)
    } else if is_key(s, "dataless") {
        Ok(EntryType::Dataless)
    } else if is_key(s, "error") {
        Ok(EntryType::Error)
    } else if is_key(s, "symlink") {
        Ok(EntryType::Symlink)
    } else if is_key(s, "dir") {
        Ok(EntryType::Dir)
    } else {
        Err(message("unknown entry type: ", s))
    }
}

/// Reads a data line: `type:value<TAB>path`.
fn data_line_exec(line: &[char]) -> (r: Result<ManifestEntry, Vec<char>>)
    ensures
        match data_line(line@) {
            Ok(e) => r matches Ok(entry) && entry@ == e,
            Err(m) => r matches Err(v) && v@ == m,
        },
{
    let mut tab: Vec<char> = Vec::new();
    tab.push('\t');
    assert(tab@ == seq!['\t']);
    let (type_value, path) = match split_once_exec(line, tab.as_slice()) {
        Some(p) => p,
        None => return Err(message("invalid data line: ", line)),
    };
    let mut colon: Vec<char> = Vec::new();
    colon.push(':');
    assert(colon@ == seq![':']);
    let (type_str, value) = match split_once_exec(type_value.as_slice(), colon.as_slice()) {
        Some(p) => p,
        None => return Err(message("invalid type:value in data line: ", line)),
    };
    let entry_type = match parse_entry_type(type_str.as_slice()) {
        Ok(t) => t,
        Err(m) => return Err(m),
    };
    Ok(ManifestEntry { entry_type, value: string_of(&value), path: string_of(&path) })
}

/// Reads one line of a manifest into the header and entries.
fn parse_line_exec(
    header: &mut ManifestHeader,
    entries: &mut Vec<ManifestEntry>,
    raw: &[char],
) -> (r: Result<(), Vec<char>>)
    ensures
        match parse_line((old(header)@, entry_views(old(entries)@)), raw@) {
            Ok(st) => r is Ok && final(header)@ == st.0 && entry_views(final(entries)@) == st.1,
            Err(m) => r matches Err(v) && v@ == m,
        },
{
    let line = trim_end_exec(raw);
    if line.len() == 0 {
        return Ok(());
    }
    let prefix = chars_of("# ");
    proof {
        reveal_strlit("# ");
    }
    if starts_with_exec(line.as_slice(), prefix.as_slice()) {
        let rest = slice_copy(line.as_slice(), 2, line.len());
        assert(rest@ == line@.skip(2));
        header_line_exec(header, rest.as_slice())
    } else {
        match data_line_exec(line.as_slice()) {
            Ok(e) => {
                let ghost before = entry_views(entries@);
                entries.push(e);
                assert(entry_views(entries@) =~= before.push(e@));
                Ok(())
            },
            Err(m) => Err(m),
        }
    }
}

/// Parse a manifest text into header + entries.
pub fn parse_manifest(text: &str) -> (r: Result<(ManifestHeader, Vec<ManifestEntry>), ParseError>)
    ensures
        match manifest_parse(text@) {
            Ok(st) => r matches Ok((h, es)) && h@ == st.0 && entry_views(es@) == st.1,
            Err(m) => r matches Err(ParseError::Format(msg)) && msg@ == m,
        },
{
    let chars = chars_of(text);
    let lines = split_lines_exec(chars.as_slice());
    let ghost all = split_lines(text@);
    assert(lines_view(lines@) =~= all);
    let mut header = default_header_exec();
    let mut entries: Vec<ManifestEntry> = Vec::new();
    let mut i: usize = 0;
    assert(all.skip(0) == all);
    assert(entry_views(entries@) =~= Seq::<EntryView>::empty());
    while i < lines.len()
        invariant
            i <= lines@.len(),
            all == lines_view(lines@),
            all == split_lines(text@),
            parse_lines(all, (default_header(), Seq::empty())) == parse_lines(
                all.skip(i as int),
                (header@, entry_views(entries@)),
            ),
        decreases lines@.len() - i,
    {
        assert(all.skip(i as int)[0] == lines@[i as int]@);
        assert(all.skip(i as int).drop_first() == all.skip(i + 1));
        let ghost st = (header@, entry_views(entries@));
        match parse_line_exec(&mut header, &mut entries, lines[i].as_slice()) {
            Ok(()) => {},
            Err(m) => {
                assert(parse_lines(all.skip(i as int), st) == Err::<ParseState, Seq<char>>(m@));
                return Err(ParseError::Format(string_of(&m)));
            },
        }
        i = i + 1;
    }
    assert(all.skip(lines@.len() as int).len() == 0);
    Ok((header, entries))
}

/// Parse only the header from a manifest text, ignoring entries.
/// Stops reading as soon as it encounters the first data line.
pub fn parse_manifest_header(text: &str) -> (r: Result<ManifestHeader, ParseError>)
    ensures
        match manifest_header_parse(text@) {
            Ok(h) => r matches Ok(header) && header@ == h,
            Err(m) => r matches Err(ParseError::Format(msg)) && msg@ == m,
        },
{
    let chars = chars_of(text);
    let lines = split_lines_exec(chars.as_slice());
    let ghost all = split_lines(text@);
    assert(lines_view(lines@) =~= all);
    let mut header = default_header_exec();
    let mut i: usize = 0;
    assert(all.skip(0) == all);
    let prefix = chars_of("# ");
    proof {
        reveal_strlit("# ");
    }
    while i < lines.len()
        invariant
            i <= lines@.len(),
            all == lines_view(lines@),
            all == split_lines(text@),
            prefix@ == "# "@,
            header_only_lines(all, default_header()) == header_only_lines(
                all.skip(i as int),
                header@,
            ),
        decreases lines@.len() - i,
    {
        assert(all.skip(i as int)[0] == lines@[i as int]@);
        assert(all.skip(i as int).drop_first() == all.skip(i + 1));
        let line = trim_end_exec(lines[i].as_slice());
        let ghost h0 = header@;
        if line.len() > 0 {
            if starts_with_exec(line.as_slice(), prefix.as_slice()) {
                proof {
                    reveal_strlit("# ");
                }
                assert(line@.len() >= 2);
                let rest = slice_copy(line.as_slice(), 2, line.len());
                assert(rest@ == line@.skip(2));
                match header_line_exec(&mut header, rest.as_slice()) {
                    Ok(()) => {},
                    Err(m) => {
                        assert(header_only_lines(all.skip(i as int), h0) == Err::<HeaderModel, Seq<char>>(m@));
                        return Err(ParseError::Format(string_of(&m)));
                    },
                }
            } else {
                assert(!is_header_line(line@));
                assert(header_only_lines(all.skip(i as int), h0) == Ok::<HeaderModel, Seq<char>>(h0));
                return Ok(header);
            }
        }
        i = i + 1;
    }
    assert(all.skip(lines@.len() as int).len() == 0);
    Ok(header)
}


/// Whether a line, once trimmed at its end, is a data line: neither empty nor a header line.
pub open spec fn is_data_line(raw: Seq<char>) -> bool {
    trim_end(raw).len() > 0 && !is_header_line(trim_end(raw))
}

/// Whether every header line comes before the first data line.
pub open spec fn headers_first(lines: Seq<Seq<char>>) -> bool {
    forall|a: int, b: int|
        0 <= a < b < lines.len() && is_data_line(#[trigger] lines[a]) ==> !is_header_line(
            trim_end(#[trigger] lines[b]),
        )
}

/// Reading lines with no header line among them leaves the header as it was.
proof fn lemma_no_header_lines(lines: Seq<Seq<char>>, st: ParseState)
    requires
        forall|b: int| 0 <= b < lines.len() ==> !is_header_line(trim_end(#[trigger] lines[b])),
    ensures
        parse_lines(lines, st) matches Ok(end) ==> end.0 == st.0,
    decreases lines.len(),
{
    if lines.len() > 0 {
        assert(!is_header_line(trim_end(lines[0])));
        match parse_line(st, lines[0]) {
            Ok(next) => {
                assert(next.0 == st.0);
                assert forall|b: int| 0 <= b < lines.drop_first().len() implies !is_header_line(
                    trim_end(#[trigger] lines.drop_first()[b]),
                ) by {
                    assert(lines.drop_first()[b] == lines[b + 1]);
                }
                lemma_no_header_lines(lines.drop_first(), next);
            },
            Err(_) => {},
        }
    }
}

/// Reading only the header of lines whose header lines come first gives the header that
/// reading all of them gives, whenever reading all of them succeeds.
proof fn lemma_header_lines_agree(lines: Seq<Seq<char>>, st: ParseState)
    requires
        headers_first(lines),
        parse_lines(lines, st) is Ok,
    ensures
        parse_lines(lines, st) matches Ok(end) && header_only_lines(lines, st.0) == Ok::<
            HeaderModel,
            Seq<char>,
        >(end.0),
    decreases lines.len(),
{
    if lines.len() > 0 {
        let rest = lines.drop_first();
        assert forall|a: int, b: int|
            0 <= a < b < rest.len() && is_data_line(#[trigger] rest[a]) implies !is_header_line(
            trim_end(#[trigger] rest[b]),
        ) by {
            assert(rest[a] == lines[a + 1] && rest[b] == lines[b + 1]);
        }
        let next = parse_line(st, lines[0])->Ok_0;
        if is_data_line(lines[0]) {
            assert forall|b: int| 0 <= b < rest.len() implies !is_header_line(
                trim_end(#[trigger] rest[b]),
            ) by {
                assert(rest[b] == lines[b + 1]);
            }
            assert(next.0 == st.0);
            lemma_no_header_lines(rest, next);
        } else {
            lemma_header_lines_agree(rest, next);
        }
    }
}

/// Reading only the header of a manifest whose header lines all come before its first
/// data line gives the same header as reading the whole manifest, whenever that succeeds.
pub proof fn lemma_header_parse_agrees(text: Seq<char>)
    requires
        headers_first(split_lines(text)),
        manifest_parse(text) is Ok,
    ensures
        manifest_parse(text) matches Ok(st) && manifest_header_parse(text) == Ok::<
            HeaderModel,
            Seq<char>,
        >(st.0),
{
    lemma_header_lines_agree(split_lines(text), (default_header(), Seq::empty()));
}

/// Whether a header text value reads back as written: it holds no line feed and does not
/// end in whitespace.
pub open spec fn field_round_trips(v: Seq<char>) -> bool {
    !v.contains('\n') && (v.len() == 0 || !is_whitespace(v.last()))
}

/// Whether a header reads back as written: its text values round-trip and its mode is
/// not empty (an absent mode reads as `content`).
pub open spec fn header_round_trips(h: HeaderModel) -> bool {
    &&& field_round_trips(h.host)
    &&& field_round_trips(h.path)
    &&& field_round_trips(h.date)
    &&& field_round_trips(h.root_hash)
    &&& field_round_trips(h.mode)
    &&& h.mode.len() > 0
}

/// Whether an entry reads back as written: its value holds no tab or line feed, and its
/// path holds no line feed, is not empty and does not end in whitespace.
pub open spec fn entry_round_trips(e: EntryView) -> bool {
    &&& !e.1.contains('\t')
    &&& !e.1.contains('\n')
    &&& !e.2.contains('\n')
    &&& e.2.len() > 0
    &&& !is_whitespace(e.2.last())
}

/// Appending text without a line feed extends the last line.
proof fn lemma_split_append_line(t: Seq<char>, l: Seq<char>)
    requires
        !l.contains('\n'),
    ensures
        split_lines(t + l) == split_lines(t).update(
            split_lines(t).len() - 1,
            split_lines(t).last() + l,
        ),
    decreases l.len(),
{
    lemma_split_lines_nonempty(t);
    if l.len() == 0 {
        assert(t + l == t);
        assert(split_lines(t).last() + l == split_lines(t).last());
        assert(split_lines(t).update(split_lines(t).len() - 1, split_lines(t).last())
            =~= split_lines(t));
    } else {
        let l2 = l.drop_last();
        assert(!l2.contains('\n')) by {
            assert forall|i: int| 0 <= i < l2.len() implies l2[i] != '\n' by {
                assert(l2[i] == l[i]);
            }
        }
        lemma_split_append_line(t, l2);
        assert((t + l).drop_last() == t + l2);
        assert((t + l).last() == l.last());
        assert(l.last() != '\n') by {
            assert(l[l.len() - 1] == l.last());
        }
        assert(split_lines(t).last() + l2 + seq![l.last()] =~= split_lines(t).last() + l);
        let init = split_lines(t + l2);
        assert(split_lines(t + l) == init.update(init.len() - 1, init.last().push(l.last())));
        assert(init.last() == split_lines(t).last() + l2);
        assert((split_lines(t).last() + l2).push(l.last()) =~= split_lines(t).last() + l);
        assert(split_lines(t + l) =~= split_lines(t).update(
            split_lines(t).len() - 1,
            split_lines(t).last() + l,
        ));
    }
}

/// Splitting joined lines gives them back, followed by an empty last line.
proof fn lemma_split_lines_text(ls: Seq<Seq<char>>)
    requires
        forall|i: int| 0 <= i < ls.len() ==> !(#[trigger] ls[i]).contains('\n'),
    ensures
        split_lines(lines_text(ls)) == ls.push(Seq::<char>::empty()),
    decreases ls.len(),
{
    if ls.len() == 0 {
        assert(lines_text(ls) == Seq::<char>::empty());
        assert(split_lines(Seq::<char>::empty()) =~= ls.push(Seq::<char>::empty()));
    } else {
        let init = ls.drop_last();
        assert forall|i: int| 0 <= i < init.len() implies !(#[trigger] init[i]).contains('\n') by {
            assert(init[i] == ls[i]);
        }
        lemma_split_lines_text(init);
        let t = lines_text(init);
        let l = ls.last();
        assert(!l.contains('\n')) by {
            assert(ls[ls.len() - 1] == l);
        }
        lemma_split_append_line(t, l);
        assert(Seq::<char>::empty() + l == l);
        assert(split_lines(t + l) =~= init.push(l));
        let full = t + l + seq!['\n'];
        assert(lines_text(ls) == full);
        assert(full.drop_last() == t + l);
        assert(init.push(l) == ls);
        assert(split_lines(full) =~= ls.push(Seq::<char>::empty()));
    }
}

/// Reading two blocks of lines reads the first, then the second from where it ended.
proof fn lemma_parse_lines_append(a: Seq<Seq<char>>, b: Seq<Seq<char>>, st: ParseState)
    ensures
        parse_lines(a + b, st) == match parse_lines(a, st) {
            Ok(next) => parse_lines(b, next),
            Err(m) => Err(m),
        },
    decreases a.len(),
{
    if a.len() == 0 {
        assert(a + b == b);
    } else {
        assert((a + b)[0] == a[0]);
        assert((a + b).drop_first() == a.drop_first() + b);
        match parse_line(st, a[0]) {
            Ok(next) => {
                lemma_parse_lines_append(a.drop_first(), b, next);
            },
            Err(_) => {},
        }
    }
}

/// What reading a written `# key: value` line comes to.
proof fn lemma_header_text_line(key: Seq<char>, value: Seq<char>)
    requires
        key.len() > 0,
        !key.contains(':'),
        !key.contains('\n'),
        field_round_trips(value),
    ensures
        !header_text_line(key, value).contains('\n'),
        trim_end(header_text_line(key, value)).len() > 0,
        is_header_line(trim_end(header_text_line(key, value))),
        split_once(trim_end(header_text_line(key, value)).skip(2), ": "@) == (if value.len() == 0 {
            None
        } else {
            Some((key, value))
        }),
{
    reveal_strlit(": ");
    reveal_strlit("# ");
    assert("# "@ =~= seq!['#', ' ']);
    let line = header_text_line(key, value);
    let pat = seq![':', ' '];
    assert(": "@ == pat);
    assert(!line.contains('\n')) by {
        assert forall|i: int| 0 <= i < line.len() implies line[i] != '\n' by {
            if 2 <= i < 2 + key.len() {
                assert(line[i] == key[i - 2]);
            } else if i >= key.len() + 4 {
                assert(line[i] == value[i - key.len() - 4]);
            }
        }
    }
    if value.len() > 0 {
        assert(line.last() == value.last());
        lemma_trim_end_keeps(line);
        let r = line.skip(2);
        assert(r =~= key + pat + value);
        assert forall|x: int| 0 <= x < key.len() implies !matches_at(r, pat, x) by {
            assert(r[x] == key[x]);
            if matches_at(r, pat, x) {
                assert(r.subrange(x, x + 2)[0] == pat[0]);
            }
        }
        assert(r.subrange(key.len() as int, (key.len() + 2) as int) =~= pat);
        lemma_find_from_first(r, pat, 0, key.len() as int);
        assert(r.subrange(0, key.len() as int) =~= key);
        assert(r.subrange((key.len() + 2) as int, r.len() as int) =~= value);
        assert(starts_with(line, "# "@)) by {
            assert(line.subrange(0, 2) =~= seq!['#', ' ']);
        }
    } else {
        let t = seq!['#', ' '] + key + seq![':'];
        assert(line =~= t.push(' '));
        assert(line.drop_last() == t);
        assert(is_whitespace(line.last()));
        assert(t.last() == ':');
        lemma_trim_end_keeps(t);
        assert(trim_end(line) == t);
        let r = t.skip(2);
        assert(r =~= key + seq![':']);
        assert forall|x: int| 0 <= x implies !matches_at(r, pat, x) by {
            if matches_at(r, pat, x) {
                assert(r.subrange(x, x + 2)[0] == pat[0]);
                assert(r[x] == key[x]);
            }
        }
        lemma_find_from_none(r, pat, 0);
        assert(starts_with(t, "# "@)) by {
            assert(t.subrange(0, 2) =~= seq!['#', ' ']);
        }
    }
}

/// Facts about the type tags that reading an entry line relies on.
proof fn lemma_type_tag(t: EntryType)
    ensures
        type_tag(t).len() > 0,
        type_tag(t)[0] != '#',
        !type_tag(t).contains('\t'),
        !type_tag(t).contains(':'),
        !type_tag(t).contains('\n'),
        parse_type(type_tag(t)) == Some(t),
{
    reveal_strlit("blake3");
    reveal_strlit("dataless");
    reveal_strlit("error");
    reveal_strlit("symlink");
    reveal_strlit("dir");
    let s = type_tag(t);
    assert forall|i: int| 0 <= i < s.len() implies 'a' <= #[trigger] s[i] <= 'z' || ('0' <= s[i]
        <= '9') by {
        match t {
            EntryType::Blake3 => {},
            EntryType::Dataless => {},
            EntryType::Error => {},
            EntryType::Symlink => {},
            EntryType::Dir => {},
        }
    }
    match t {
        EntryType::Blake3 => {},
        EntryType::Dataless => {
            assert("dataless"@[0] != "blake3"@[0]);
        },
        EntryType::Error => {
            assert("error"@[0] != "blake3"@[0]);
            assert("error"@[0] != "dataless"@[0]);
        },
        EntryType::Symlink => {
            assert("symlink"@[0] != "blake3"@[0]);
            assert("symlink"@[0] != "dataless"@[0]);
            assert("symlink"@[0] != "error"@[0]);
        },
        EntryType::Dir => {
            assert("dir"@[1] != "dataless"@[1]);
            assert("dir"@.len() != "blake3"@.len());
            assert("dir"@.len() != "error"@.len());
            assert("dir"@.len() != "symlink"@.len());
        },
    }
}

/// What reading a written entry line comes to.
proof fn lemma_entry_line(e: EntryView)
    requires
        entry_round_trips(e),
    ensures
        !entry_line(e).contains('\n'),
        trim_end(entry_line(e)) == entry_line(e),
        entry_line(e).len() > 0,
        !is_header_line(entry_line(e)),
        data_line(entry_line(e)) == Ok::<EntryView, Seq<char>>(e),
{
    reveal_strlit("# ");
    lemma_type_tag(e.0);
    let tag = type_tag(e.0);
    let a = tag + seq![':'] + e.1;
    let line = entry_line(e);
    assert(line == a + seq!['\t'] + e.2);
    assert(!a.contains('\t')) by {
        assert forall|i: int| 0 <= i < a.len() implies a[i] != '\t' by {
            if i < tag.len() {
                assert(a[i] == tag[i]);
            } else if i > tag.len() {
                assert(a[i] == e.1[i - tag.len() - 1]);
            }
        }
    }
    assert(!line.contains('\n')) by {
        assert forall|i: int| 0 <= i < line.len() implies line[i] != '\n' by {
            if i < tag.len() {
                assert(line[i] == tag[i]);
            } else if tag.len() < i < a.len() {
                assert(line[i] == e.1[i - tag.len() - 1]);
            } else if i > a.len() {
                assert(line[i] == e.2[i - a.len() - 1]);
            }
        }
    }
    lemma_split_once_char(a, '\t', e.2);
    lemma_split_once_char(tag, ':', e.1);
    assert(line.last() == e.2.last());
    lemma_trim_end_keeps(line);
    assert(line[0] == tag[0]);
    assert(!starts_with(line, "# "@)) by {
        if starts_with(line, "# "@) {
            assert(line.subrange(0, 2)[0] == "# "@[0]);
        }
    }
}


/// The decimal text of a number is a non-empty header value that reads back as written.
proof fn lemma_digits_round_trip(n: nat)
    ensures
        field_round_trips(decimal(n)),
        decimal(n).len() > 0,
{
    lemma_decimal_parses(n);
    let d = decimal(n);
    assert(crate::text::is_digit(d[d.len() - 1]));
    assert forall|i: int| 0 <= i < d.len() implies d[i] != '\n' by {
        assert(crate::text::is_digit(d[i]));
    }
}

/// The header keys are different texts.
proof fn lemma_keys_distinct()
    ensures
        "path"@ != "host"@,
        "depth"@ != "host"@,
        "depth"@ != "path"@,
        "date"@ != "host"@,
        "date"@ != "path"@,
        "date"@ != "depth"@,
        "total_files"@ != "host"@,
        "total_files"@ != "path"@,
        "total_files"@ != "depth"@,
        "total_files"@ != "date"@,
        "total_dirs"@ != "host"@,
        "total_dirs"@ != "path"@,
        "total_dirs"@ != "depth"@,
        "total_dirs"@ != "date"@,
        "total_dirs"@ != "total_files"@,
        "total_bytes"@ != "host"@,
        "total_bytes"@ != "path"@,
        "total_bytes"@ != "depth"@,
        "total_bytes"@ != "date"@,
        "total_bytes"@ != "total_files"@,
        "total_bytes"@ != "total_dirs"@,
        "root"@ != "host"@,
        "root"@ != "path"@,
        "root"@ != "depth"@,
        "root"@ != "date"@,
        "root"@ != "total_files"@,
        "root"@ != "total_dirs"@,
        "root"@ != "total_bytes"@,
        "mode"@ != "host"@,
        "mode"@ != "path"@,
        "mode"@ != "depth"@,
        "mode"@ != "date"@,
        "mode"@ != "total_files"@,
        "mode"@ != "total_dirs"@,
        "mode"@ != "total_bytes"@,
        "mode"@ != "root"@,
        "version"@ != "host"@,
        "version"@ != "path"@,
        "version"@ != "depth"@,
        "version"@ != "date"@,
        "version"@ != "total_files"@,
        "version"@ != "total_dirs"@,
        "version"@ != "total_bytes"@,
        "version"@ != "root"@,
        "version"@ != "mode"@,
{
    reveal_strlit("host");
    reveal_strlit("path");
    reveal_strlit("depth");
    reveal_strlit("date");
    reveal_strlit("total_files");
    reveal_strlit("total_dirs");
    reveal_strlit("total_bytes");
    reveal_strlit("root");
    reveal_strlit("mode");
    reveal_strlit("version");
    assert("path"@[0] != "host"@[0]);
    assert("date"@[0] != "host"@[0]);
    assert("date"@[0] != "path"@[0]);
    assert("total_bytes"@[6] != "total_files"@[6]);
    assert("root"@[0] != "host"@[0]);
    assert("root"@[0] != "path"@[0]);
    assert("root"@[0] != "date"@[0]);
    assert("mode"@[0] != "host"@[0]);
    assert("mode"@[0] != "path"@[0]);
    assert("mode"@[0] != "date"@[0]);
    assert("mode"@[0] != "root"@[0]);
    assert("date"@.len() != "depth"@.len());
    assert("total_files"@.len() != "depth"@.len());
    assert("total_dirs"@.len() != "depth"@.len());
    assert("total_bytes"@.len() != "depth"@.len());
    assert("version"@.len() != "depth"@.len());
    assert("version"@.len() != "total_dirs"@.len());
}

/// The header keys hold neither a colon nor a line feed.
proof fn lemma_key_chars(key: Seq<char>)
    requires
        key == "version"@ || key == "host"@ || key == "path"@ || key == "depth"@ || key == "date"@
            || key == "total_files"@ || key == "total_dirs"@ || key == "total_bytes"@ || key
            == "root"@ || key == "mode"@,
    ensures
        key.len() > 0,
        !key.contains(':'),
        !key.contains('\n'),
{
    reveal_strlit("host");
    reveal_strlit("path");
    reveal_strlit("depth");
    reveal_strlit("date");
    reveal_strlit("total_files");
    reveal_strlit("total_dirs");
    reveal_strlit("total_bytes");
    reveal_strlit("root");
    reveal_strlit("mode");
    reveal_strlit("version");
    assert forall|i: int| 0 <= i < key.len() implies ('a' <= #[trigger] key[i] <= 'z') || key[i]
        == '_' by {}
}

/// Reading lines from position `i` after a line that read successfully.
proof fn lemma_parse_step(ls: Seq<Seq<char>>, i: int, st: ParseState, next: ParseState)
    requires
        0 <= i < ls.len(),
        parse_line(st, ls[i]) == Ok::<ParseState, Seq<char>>(next),
    ensures
        parse_lines(ls.skip(i), st) == parse_lines(ls.skip(i + 1), next),
{
    assert(ls.skip(i)[0] == ls[i]);
    assert(ls.skip(i).drop_first() == ls.skip(i + 1));
}

/// Reading header lines from position `i` after a header line that read successfully.
proof fn lemma_header_only_step(ls: Seq<Seq<char>>, i: int, h: HeaderModel, next: HeaderModel)
    requires
        0 <= i < ls.len(),
        trim_end(ls[i]).len() > 0,
        is_header_line(trim_end(ls[i])),
        header_line(h, trim_end(ls[i]).skip(2)) == Ok::<HeaderModel, Seq<char>>(next),
    ensures
        header_only_lines(ls.skip(i), h) == header_only_lines(ls.skip(i + 1), next),
{
    assert(ls.skip(i)[0] == ls[i]);
    assert(ls.skip(i).drop_first() == ls.skip(i + 1));
}

/// Reading one written `# key: value` line, by both readers.
proof fn lemma_read_header_line(
    ls: Seq<Seq<char>>,
    i: int,
    h: HeaderModel,
    next: HeaderModel,
    key: Seq<char>,
    value: Seq<char>,
)
    requires
        0 <= i < ls.len(),
        ls[i] == header_text_line(key, value),
        key == "version"@ || key == "host"@ || key == "path"@ || key == "depth"@ || key == "date"@
            || key == "total_files"@ || key == "total_dirs"@ || key == "total_bytes"@ || key
            == "root"@ || key == "mode"@,
        field_round_trips(value),
        value.len() == 0 ==> next == h,
        value.len() > 0 ==> header_field(h, key, value) == Ok::<HeaderModel, Seq<char>>(next),
    ensures
        parse_lines(ls.skip(i), (h, Seq::empty())) == parse_lines(ls.skip(i + 1), (next, Seq::empty())),
        header_only_lines(ls.skip(i), h) == header_only_lines(ls.skip(i + 1), next),
        !ls[i].contains('\n'),
{
    lemma_key_chars(key);
    lemma_header_text_line(key, value);
    lemma_parse_step(ls, i, (h, Seq::empty()), (next, Seq::empty()));
    lemma_header_only_step(ls, i, h, next);
}

/// Reading the written header lines gives back the header.
proof fn lemma_header_block(h: HeaderModel, rest: Seq<Seq<char>>)
    requires
        header_round_trips(h),
    ensures
        parse_lines(header_lines(h), (default_header(), Seq::empty())) == Ok::<
            ParseState,
            Seq<char>,
        >((h, Seq::empty())),
        header_only_lines(header_lines(h) + rest, default_header()) == header_only_lines(rest, h),
        forall|i: int| 0 <= i < header_lines(h).len() ==> !(#[trigger] header_lines(h)[i]).contains('\n'),
{
    reveal_strlit("# ");
    reveal_strlit("sumpig fingerprint");
    reveal_strlit("2");
    reveal_strlit(": ");
    lemma_keys_distinct();
    let hl = header_lines(h);
    let full = hl + rest;
    let s0 = default_header();
    // The first line holds no `: `.
    let first = hl[0];
    let title = "sumpig fingerprint"@;
    assert forall|x: int| 0 <= x < title.len() implies ('a' <= #[trigger] title[x] <= 'z')
        || title[x] == ' ' by {}
    assert(!first.contains('\n')) by {
        assert forall|x: int| 0 <= x < first.len() implies first[x] != '\n' by {
            if x >= 2 {
                assert(first[x] == "sumpig fingerprint"@[x - 2]);
            }
        }
    }
    assert(first.last() == 't');
    lemma_trim_end_keeps(first);
    assert(first.skip(2) =~= "sumpig fingerprint"@);
    assert(": "@ =~= seq![':', ' ']);
    assert forall|x: int| 0 <= x implies !matches_at(first.skip(2), ": "@, x) by {
        if matches_at(first.skip(2), ": "@, x) {
            assert(first.skip(2).subrange(x, x + 2)[0] == ": "@[0]);
        }
    }
    lemma_find_from_none(first.skip(2), ": "@, 0);
    assert(is_header_line(first)) by {
        assert(first.subrange(0, 2) =~= "# "@);
    }
    lemma_parse_step(hl, 0, (s0, Seq::empty()), (s0, Seq::empty()));
    assert(full[0] == first);
    lemma_header_only_step(full, 0, s0, s0);
    // `# version: 2` names no field.
    assert("2"@ =~= seq!['2']);
    lemma_read_header_line(hl, 1, s0, s0, "version"@, "2"@);
    lemma_read_header_line(full, 1, s0, s0, "version"@, "2"@);
    let s1 = HeaderModel { host: h.host, ..s0 };
    if h.host.len() == 0 {
        assert(h.host =~= Seq::<char>::empty());
        assert(s1 =~= s0);
    }
    lemma_read_header_line(hl, 2, s0, s1, "host"@, h.host);
    lemma_read_header_line(full, 2, s0, s1, "host"@, h.host);
    let s2 = HeaderModel { path: h.path, ..s1 };
    if h.path.len() == 0 {
        assert(h.path =~= Seq::<char>::empty());
        assert(s2 =~= s1);
    }
    lemma_read_header_line(hl, 3, s1, s2, "path"@, h.path);
    lemma_read_header_line(full, 3, s1, s2, "path"@, h.path);
    let s3 = HeaderModel { depth: h.depth, ..s2 };
    lemma_digits_round_trip(h.depth as nat);
    lemma_parse_decimal(h.depth as nat, usize::MAX as nat);
    lemma_read_header_line(hl, 4, s2, s3, "depth"@, decimal(h.depth as nat));
    lemma_read_header_line(full, 4, s2, s3, "depth"@, decimal(h.depth as nat));
    let s4 = HeaderModel { date: h.date, ..s3 };
    if h.date.len() == 0 {
        assert(h.date =~= Seq::<char>::empty());
        assert(s4 =~= s3);
    }
    lemma_read_header_line(hl, 5, s3, s4, "date"@, h.date);
    lemma_read_header_line(full, 5, s3, s4, "date"@, h.date);
    let s5 = HeaderModel { total_files: h.total_files, ..s4 };
    lemma_digits_round_trip(h.total_files as nat);
    lemma_parse_decimal(h.total_files as nat, usize::MAX as nat);
    lemma_read_header_line(hl, 6, s4, s5, "total_files"@, decimal(h.total_files as nat));
    lemma_read_header_line(full, 6, s4, s5, "total_files"@, decimal(h.total_files as nat));
    let s6 = HeaderModel { total_dirs: h.total_dirs, ..s5 };
    lemma_digits_round_trip(h.total_dirs as nat);
    lemma_parse_decimal(h.total_dirs as nat, usize::MAX as nat);
    lemma_read_header_line(hl, 7, s5, s6, "total_dirs"@, decimal(h.total_dirs as nat));
    lemma_read_header_line(full, 7, s5, s6, "total_dirs"@, decimal(h.total_dirs as nat));
    let s7 = HeaderModel { total_bytes: h.total_bytes, ..s6 };
    lemma_digits_round_trip(h.total_bytes as nat);
    lemma_parse_decimal(h.total_bytes as nat, u64::MAX as nat);
    lemma_read_header_line(hl, 8, s6, s7, "total_bytes"@, decimal(h.total_bytes as nat));
    lemma_read_header_line(full, 8, s6, s7, "total_bytes"@, decimal(h.total_bytes as nat));
    let s8 = HeaderModel { root_hash: h.root_hash, ..s7 };
    if h.root_hash.len() == 0 {
        assert(h.root_hash =~= Seq::<char>::empty());
        assert(s8 =~= s7);
    }
    lemma_read_header_line(hl, 9, s7, s8, "root"@, h.root_hash);
    lemma_read_header_line(full, 9, s7, s8, "root"@, h.root_hash);
    let s9 = HeaderModel { mode: h.mode, ..s8 };
    lemma_read_header_line(hl, 10, s8, s9, "mode"@, h.mode);
    lemma_read_header_line(full, 10, s8, s9, "mode"@, h.mode);
    assert(s9 =~= h);
    assert(hl.skip(0) == hl);
    assert(full.skip(0) == full);
    assert(hl.skip(11).len() == 0);
    assert(full.skip(11) == rest);
    assert forall|i: int| 0 <= i < hl.len() implies !(#[trigger] hl[i]).contains('\n') by {
        assert(i == 0 || i == 1 || i == 2 || i == 3 || i == 4 || i == 5 || i == 6 || i == 7 || i
            == 8 || i == 9 || i == 10);
    }
}

/// Reading written entry lines appends their entries, in order.
proof fn lemma_entry_block(es: Seq<EntryView>, h: HeaderModel, acc: Seq<EntryView>)
    requires
        forall|i: int| 0 <= i < es.len() ==> entry_round_trips(#[trigger] es[i]),
    ensures
        parse_lines(entry_lines(es), (h, acc)) == Ok::<
            ParseState,
            Seq<char>,
        >((h, acc + es)),
        forall|i: int|
            0 <= i < es.len() ==> !(#[trigger] entry_lines(es)[i]).contains(
                '\n',
            ),
    decreases es.len(),
{
    let ls = entry_lines(es);
    if es.len() == 0 {
        assert(acc + es =~= acc);
    } else {
        let rest = es.drop_first();
        assert forall|i: int| 0 <= i < rest.len() implies entry_round_trips(#[trigger] rest[i]) by {
            assert(rest[i] == es[i + 1]);
        }
        lemma_entry_line(es[0]);
        assert(ls[0] == entry_line(es[0]));
        assert(parse_line((h, acc), ls[0]) == Ok::<ParseState, Seq<char>>((h, acc.push(es[0]))));
        lemma_entry_block(rest, h, acc.push(es[0]));
        assert(ls.drop_first() =~= entry_lines(rest));
        assert(acc.push(es[0]) + rest =~= acc + es);
        assert forall|i: int| 0 <= i < es.len() implies !(#[trigger] ls[i]).contains('\n') by {
            lemma_entry_line(es[i]);
        }
    }
}

/// An empty line, then nothing, changes no parse state.
proof fn lemma_empty_last_line(st: ParseState, h: HeaderModel)
    ensures
        parse_lines(seq![Seq::<char>::empty()], st) == Ok::<ParseState, Seq<char>>(st),
        header_only_lines(seq![Seq::<char>::empty()], h) == Ok::<HeaderModel, Seq<char>>(h),
{
    let ls = seq![Seq::<char>::empty()];
    assert(trim_end(ls[0]) == ls[0]);
    assert(ls.drop_first().len() == 0);
    assert(parse_lines(ls.drop_first(), st) == Ok::<ParseState, Seq<char>>(st));
    assert(parse_line(st, ls[0]) == Ok::<ParseState, Seq<char>>(st));
    assert(header_only_lines(ls.drop_first(), h) == Ok::<HeaderModel, Seq<char>>(h));
}

/// Write a manifest, then read it: the header and the entries come back as they were
/// written, and reading the header alone gives the same header. This holds for every
/// header whose text values hold no line feed and do not end in whitespace, whose mode is
/// not empty, and for entries whose values hold no tab or line feed and whose paths are
/// non-empty, hold no line feed and do not end in whitespace.
pub proof fn lemma_write_then_parse(h: HeaderModel, es: Seq<EntryView>)
    requires
        header_round_trips(h),
        forall|i: int| 0 <= i < es.len() ==> entry_round_trips(#[trigger] es[i]),
    ensures
        manifest_parse(manifest_text(h, es)) == Ok::<ParseState, Seq<char>>((h, es)),
        manifest_header_parse(manifest_text(h, es)) == Ok::<HeaderModel, Seq<char>>(h),
{
    let hl = header_lines(h);
    let el = entry_lines(es);
    let last = seq![Seq::<char>::empty()];
    lemma_header_block(h, el + last);
    lemma_entry_block(es, h, Seq::empty());
    let ls = hl + el;
    assert forall|i: int| 0 <= i < ls.len() implies !(#[trigger] ls[i]).contains('\n') by {
        if i < hl.len() {
            assert(ls[i] == hl[i]);
        } else {
            assert(ls[i] == el[i - hl.len()]);
        }
    }
    lemma_split_lines_text(ls);
    assert(ls.push(Seq::<char>::empty()) =~= hl + (el + last));
    assert(ls.push(Seq::<char>::empty()) =~= (hl + el) + last);
    lemma_parse_lines_append(hl, el, (default_header(), Seq::empty()));
    lemma_parse_lines_append(hl + el, last, (default_header(), Seq::empty()));
    assert(Seq::<EntryView>::empty() + es =~= es);
    lemma_empty_last_line((h, es), h);
    if es.len() > 0 {
        lemma_entry_line(es[0]);
        let rest = el + last;
        assert(rest[0] == entry_line(es[0]));
    } else {
        assert(el + last =~= last);
    }
}

/// The clock time of the system.
#[verifier::external_type_specification]
#[verifier::external_body]
pub struct ExSystemTime(std::time::SystemTime);

/// `std::time::SystemTime::now`: the current time. Nothing is stated of it.
#[verifier::external_body]
fn system_now() -> std::time::SystemTime {
    std::time::SystemTime::now()
}

/// `std::time::SystemTime::duration_since` the Unix epoch, in whole seconds; `None` when
/// the time lies before the epoch. Nothing is stated of the number: it is read off a
/// clock value that nothing here models.
#[verifier::external_body]
fn seconds_since_epoch(t: &std::time::SystemTime) -> Option<u64> {
    match t.duration_since(std::time::SystemTime::UNIX_EPOCH) {
        Ok(d) => Some(d.as_secs()),
        Err(_) => None,
    }
}

/// The smallest day number, counted from 1970-01-01, whose year fits an `i32`: January 1
/// of year -2^31.
pub open spec fn min_day_number() -> int {
    -784_353_015_833
}

/// The largest day number, counted from 1970-01-01, whose year fits an `i32`: December 31
/// of year 2^31 - 1.
pub open spec fn max_day_number() -> int {
    784_351_576_776
}

/// The text of `n` in decimal, padded with zeros on the left to `width` characters.
pub open spec fn zero_padded(n: nat, width: nat) -> Seq<char> {
    if decimal(n).len() >= width {
        decimal(n)
    } else {
        Seq::new((width - decimal(n).len()) as nat, |i: int| '0') + decimal(n)
    }
}

/// The ISO 8601 text (`YYYY-MM-DDTHH:MM:SSZ`) of a time given in seconds since the Unix
/// epoch.
pub open spec fn iso_text(secs: nat) -> Seq<char> {
    let days = secs / 86400;
    let t = secs % 86400;
    let date = civil_date(days as int);
    zero_padded(date.0 as nat, 4) + seq!['-'] + zero_padded(date.1 as nat, 2) + seq!['-']
        + zero_padded(date.2 as nat, 2) + seq!['T'] + zero_padded(t / 3600, 2) + seq![':']
        + zero_padded((t % 3600) / 60, 2) + seq![':'] + zero_padded(t % 60, 2) + seq!['Z']
}

/// Appends the decimal text of `n`, padded with zeros to `width` characters.
fn push_padded(out: &mut Vec<char>, n: u64, width: usize)
    ensures
        final(out)@ == old(out)@ + zero_padded(n as nat, width as nat),
{
    let mut digits: Vec<char> = Vec::new();
    push_decimal(&mut digits, n);
    assert(digits@ =~= decimal(n as nat));
    let ghost start = out@;
    if digits.len() < width {
        let pad = width - digits.len();
        let mut i: usize = 0;
        while i < pad
            invariant
                i <= pad,
                out@ == start + Seq::new(i as nat, |j: int| '0'),
            decreases pad - i,
        {
            out.push('0');
            assert(out@ =~= start + Seq::new((i + 1) as nat, |j: int| '0'));
            i = i + 1;
        }
    }
    push_all(out, digits.as_slice());
    assert(out@ =~= start + zero_padded(n as nat, width as nat));
}

/// Whether year `y` is a leap year.
fn is_leap_exec(y: i64) -> (b: bool)
    requires
        -2_147_484_030 <= y <= 2_147_484_000,
    ensures
        b == is_leap_year(y as int),
{
    let u: u64 = (y + 2_147_484_400) as u64;
    assert(u % 4 == (y as int) % 4) by (nonlinear_arith)
        requires
            u == y + 2_147_484_400,
    ;
    assert(u % 100 == (y as int) % 100) by (nonlinear_arith)
        requires
            u == y + 2_147_484_400,
    ;
    assert(u % 400 == (y as int) % 400) by (nonlinear_arith)
        requires
            u == y + 2_147_484_400,
    ;
    (u % 4 == 0 && u % 100 != 0) || u % 400 == 0
}

/// The number of days of year `y`.
fn year_length_exec(y: i64) -> (n: i64)
    requires
        -2_147_484_030 <= y <= 2_147_484_000,
    ensures
        n == year_length(y as int),
{
    if is_leap_exec(y) {
        366
    } else {
        365
    }
}

/// The number of days of month `m` of year `y`.
fn month_length_exec(y: i64, m: i64) -> (n: i64)
    requires
        -2_147_484_030 <= y <= 2_147_484_000,
    ensures
        n == month_length(y as int, m as int),
{
    if m == 2 {
        if is_leap_exec(y) {
            29
        } else {
            28
        }
    } else if m == 4 || m == 6 || m == 9 || m == 11 {
        30
    } else {
        31
    }
}

/// A date whose day number lies in the accepted range has a year that fits an `i32`.
proof fn lemma_year_fits_i32(y: int, m: int, d: int)
    requires
        valid_date(y, m, d),
        min_day_number() <= days_from_civil(y, m, d) <= max_day_number(),
    ensures
        -2_147_483_648 <= y <= 2_147_483_647,
{
    assert(days_before_year(-2_147_483_648) == min_day_number());
    assert(days_before_year(2_147_483_648) == max_day_number() + 1);
    crate::calendar::lemma_year_between(y, m, d, -2_147_483_648, 2_147_483_648);
}

/// Convert days since 1970-01-01 to (year, month, day) in the proleptic Gregorian
/// calendar.
pub fn civil_from_days(days: i64) -> (r: (i32, u32, u32))
    requires
        min_day_number() <= days <= max_day_number(),
    ensures
        (r.0 as int, r.1 as int, r.2 as int) == civil_date(days as int),
        valid_date(r.0 as int, r.1 as int, r.2 as int),
        days_from_civil(r.0 as int, r.1 as int, r.2 as int) == days,
{
    // Count from a year that starts a 400-year cycle well before any accepted day.
    let z: u64 = (days + 784_353_155_355) as u64;
    let q: u64 = z / 146097;
    let rem: u64 = z % 146097;
    proof {
        vstd::arithmetic::div_mod::lemma_fundamental_div_mod(z as int, 146097);
        assert(z <= 1_568_704_732_131);
        assert(q as int == (z as int) / 146097);
        assert((z as int) % 146097 >= 0);
        assert(146097 * (q as int) <= 1_568_704_732_131);
        assert(q <= 10_737_419) by (nonlinear_arith)
            requires
                146097 * (q as int) <= 1_568_704_732_131,
        ;
    }
    let year0: i64 = -2_147_484_030 + 400 * (q as i64);
    proof {
        lemma_eras(-2_147_484_030, 5_368_715);
        lemma_eras(-2_147_484_030, q as nat);
        assert(days_before_year(1970) == 0);
        lemma_eras(year0 as int, 1);
    }
    let mut y: i64 = year0;
    let mut r: i64 = rem as i64;
    while r >= year_length_exec(y)
        invariant
            year0 <= y <= year0 + 400,
            year0 == -2_147_484_030 + 400 * q,
            q <= 10_737_419,
            0 <= r,
            days == days_before_year(y as int) + r,
            r < days_before_year(year0 + 400) - days_before_year(y as int),
        decreases r,
    {
        proof {
            lemma_year_step(y as int);
        }
        let len = year_length_exec(y);
        r = r - len;
        y = y + 1;
    }
    proof {
        if y == year0 + 400 {
            assert(false);
        }
    }
    let mut m: i64 = 1;
    while r >= month_length_exec(y, m)
        invariant
            1 <= m <= 12,
            year0 <= y < year0 + 400,
            year0 == -2_147_484_030 + 400 * q,
            q <= 10_737_419,
            0 <= r,
            days == days_before_year(y as int) + days_before_month(y as int, m as int) + r,
            r < year_length(y as int) - days_before_month(y as int, m as int),
        decreases r,
    {
        proof {
            lemma_months_fill_year(y as int);
        }
        let len = month_length_exec(y, m);
        r = r - len;
        m = m + 1;
        proof {
            if m == 13 {
                assert(false);
            }
        }
    }
    proof {
        assert(valid_date(y as int, m as int, r + 1));
        assert(days_from_civil(y as int, m as int, r + 1) == days);
        lemma_civil_date(days as int, y as int, m as int, r + 1);
        lemma_year_fits_i32(y as int, m as int, r + 1);
    }
    (y as i32, m as u32, (r + 1) as u32)
}

/// The ISO 8601 date and time (`YYYY-MM-DDTHH:MM:SSZ`) of a time given in seconds since
/// the Unix epoch; `None` beyond the last day the calendar functions handle.
pub fn iso_date(secs: u64) -> (r: Option<String>)
    ensures
        r is Some <==> secs / 86400 <= max_day_number(),
        r matches Some(text) ==> text@ == iso_text(secs as nat),
{
    let days: u64 = secs / 86400;
    if days > 784_351_576_776 {
        return None;
    }
    let (year, month, day) = civil_from_days(days as i64);
    proof {
        crate::calendar::lemma_year_from_1970(year as int, month as int, day as int);
    }
    let t: u64 = secs % 86400;
    let mut out: Vec<char> = Vec::new();
    push_padded(&mut out, year as u64, 4);
    out.push('-');
    push_padded(&mut out, month as u64, 2);
    out.push('-');
    push_padded(&mut out, day as u64, 2);
    out.push('T');
    push_padded(&mut out, t / 3600, 2);
    out.push(':');
    push_padded(&mut out, (t % 3600) / 60, 2);
    out.push(':');
    push_padded(&mut out, t % 60, 2);
    out.push('Z');
    assert(out@ =~= iso_text(secs as nat));
    Some(string_of(&out))
}

/// Get the current date/time in ISO 8601 format (YYYY-MM-DDTHH:MM:SSZ): `iso_date` of the
/// clock's reading in seconds since the Unix epoch; `None` when the clock reads a time
/// before 1970 or beyond the last day the calendar functions handle.
pub fn get_iso_date() -> (r: Option<String>)
    ensures
        r matches Some(text) ==> exists|secs: u64|
            secs / 86400 <= max_day_number() && text@ == iso_text(secs as nat),
{
    let now = system_now();
    match seconds_since_epoch(&now) {
        Some(secs) => iso_date(secs),
        None => None,
    }
}

/// A fingerprint is deterministic: two runs over the same files, found in any order, that
/// put their file entries in path order and list them to the same depth write manifests
/// whose lines are equal apart from the `date` line, when their headers agree in every
/// other field and each names its own tree's root hash. `a` and `b` are the listings the
/// two runs write, in path order.
pub proof fn lemma_fingerprint_deterministic(
    l1: Seq<InputModel>,
    l2: Seq<InputModel>,
    d: nat,
    a: Seq<FlatEntry>,
    b: Seq<FlatEntry>,
    h1: HeaderModel,
    h2: HeaderModel,
)
    requires
        inputs_sorted(l1),
        inputs_sorted(l2),
        inputs_distinct(l1),
        l1.to_multiset() == l2.to_multiset(),
        paths_distinct(manifest_listing(l1, d)),
        sorted_by_path(a),
        sorted_by_path(b),
        flat_views(a).to_multiset() == manifest_listing(l1, d).to_multiset(),
        flat_views(b).to_multiset() == manifest_listing(l2, d).to_multiset(),
        h1.root_hash == hash_hex(manifest_root(l1)),
        h2.root_hash == hash_hex(manifest_root(l2)),
        h2 == (HeaderModel { date: h2.date, root_hash: h2.root_hash, ..h1 }),
    ensures
        ({
            let t1 = header_lines(h1) + entry_lines(flat_views(a));
            let t2 = header_lines(h2) + entry_lines(flat_views(b));
            &&& manifest_text(h1, flat_views(a)) == lines_text(t1)
            &&& manifest_text(h2, flat_views(b)) == lines_text(t2)
            &&& t1.len() == t2.len()
            &&& forall|x: int| 0 <= x < t1.len() && x != 5 ==> #[trigger] t1[x] == t2[x]
            &&& t1[5] == header_text_line("date"@, h1.date)
            &&& t2[5] == header_text_line("date"@, h2.date)
        }),
{
    lemma_order_independent(l1, l2, d);
    lemma_manifest_deterministic(l1, d, a, b);
    assert(HeaderModel { date: h1.date, ..h2 } == h1);
    let t1 = header_lines(h1) + entry_lines(flat_views(a));
    let t2 = header_lines(h2) + entry_lines(flat_views(b));
    assert forall|x: int| 0 <= x < t1.len() && x != 5 implies #[trigger] t1[x] == t2[x] by {
        if x < 11 {
            assert(t1[x] == header_lines(h1)[x]);
            assert(t2[x] == header_lines(h2)[x]);
        } else {
            assert(t1[x] == entry_lines(flat_views(a))[x - 11]);
            assert(t2[x] == entry_lines(flat_views(b))[x - 11]);
        }
    }
}

} // verus!
