//! Text as characters: copying, searching, splitting, trimming, and decimal numbers.

use vstd::prelude::*;

verus! {

broadcast use {vstd::string::axiom_spec_iter, vstd::string::next_postcondition};

/// `String::push` appends the given character at the end of the string.
pub assume_specification[ String::push ](s: &mut String, ch: char)
    ensures
        final(s)@ == old(s)@.push(ch),
;

/// The characters of a string slice, in order.
pub fn chars_of(s: &str) -> (v: Vec<char>)
    ensures
        v@ == s@,
{
    let mut it = s.chars();
    let mut v: Vec<char> = Vec::new();
    loop
        invariant
            v@ + vstd::std_specs::iter::IteratorSpec::remaining(&it) == s@,
            vstd::std_specs::iter::IteratorSpec::decrease(&it) is Some,
        ensures
            v@ == s@,
        decreases vstd::std_specs::iter::IteratorSpec::decrease(&it)->0,
    {
        match it.next() {
            Some(c) => {
                v.push(c);
            },
            None => {
                break ;
            },
        }
    }
    v
}

/// A string holding the given characters.
pub fn string_of(chars: &[char]) -> (s: String)
    ensures
        s@ == chars@,
{
    let mut s = String::new();
    let mut i: usize = 0;
    while i < chars.len()
        invariant
            i <= chars@.len(),
            s@ == chars@.subrange(0, i as int),
        decreases chars@.len() - i,
    {
        s.push(chars[i]);
        i = i + 1;
    }
    s
}


/// A copy of `v[lo..hi]`.
pub fn slice_copy(v: &[char], lo: usize, hi: usize) -> (r: Vec<char>)
    requires
        lo <= hi <= v@.len(),
    ensures
        r@ == v@.subrange(lo as int, hi as int),
{
    let mut r: Vec<char> = Vec::new();
    let mut i = lo;
    while i < hi
        invariant
            lo <= i <= hi <= v@.len(),
            r@ == v@.subrange(lo as int, i as int),
        decreases hi - i,
    {
        r.push(v[i]);
        i = i + 1;
    }
    r
}

/// Appends `b` at the end of `a`.
pub fn push_all(a: &mut Vec<char>, b: &[char])
    ensures
        final(a)@ == old(a)@ + b@,
{
    let mut i: usize = 0;
    while i < b.len()
        invariant
            i <= b@.len(),
            a@ == old(a)@ + b@.subrange(0, i as int),
        decreases b@.len() - i,
    {
        a.push(b[i]);
        i = i + 1;
    }
}

/// Appends the characters of `b` at the end of `a`.
pub fn push_str(a: &mut Vec<char>, b: &str)
    ensures
        final(a)@ == old(a)@ + b@,
{
    let cs = chars_of(b);
    push_all(a, &cs);
}

/// Whether two character sequences are equal.
pub fn chars_eq(a: &[char], b: &[char]) -> (r: bool)
    ensures
        r == (a@ == b@),
{
    if a.len() != b.len() {
        return false;
    }
    let mut i: usize = 0;
    while i < a.len()
        invariant
            a@.len() == b@.len(),
            i <= a@.len(),
            a@.subrange(0, i as int) == b@.subrange(0, i as int),
        decreases a@.len() - i,
    {
        if a[i] != b[i] {
            assert(a@[i as int] != b@[i as int]);
            return false;
        }
        assert(a@.subrange(0, i + 1) == a@.subrange(0, i as int).push(a@[i as int]));
        assert(b@.subrange(0, i + 1) == b@.subrange(0, i as int).push(b@[i as int]));
        i = i + 1;
    }
    assert(a@ == a@.subrange(0, a@.len() as int));
    assert(b@ == b@.subrange(0, b@.len() as int));
    true
}

/// Whether `s` holds `pat` at position `i`.
pub open spec fn matches_at(s: Seq<char>, pat: Seq<char>, i: int) -> bool {
    0 <= i && i + pat.len() <= s.len() && s.subrange(i, i + pat.len()) == pat
}

/// Whether `s` begins with `pat`.
pub open spec fn starts_with(s: Seq<char>, pat: Seq<char>) -> bool {
    matches_at(s, pat, 0)
}

/// Whether `s` ends with `pat`.
pub open spec fn ends_with(s: Seq<char>, pat: Seq<char>) -> bool {
    matches_at(s, pat, s.len() - pat.len())
}

/// Whether `a` holds `pat` at position `i`.
pub fn matches_at_exec(a: &[char], pat: &[char], i: usize) -> (r: bool)
    ensures
        r == matches_at(a@, pat@, i as int),
{
    if i > a.len() || pat.len() > a.len() - i {
        return false;
    }
    let mut j: usize = 0;
    while j < pat.len()
        invariant
            i + pat.len() <= a.len(),
            j <= pat@.len(),
            a@.subrange(i as int, i + j) == pat@.subrange(0, j as int),
        decreases pat@.len() - j,
    {
        assert(i + j < a@.len());
        let k = i + j;
        if a[k] != pat[j] {
            assert(a@.subrange(i as int, i + pat@.len())[j as int] != pat@[j as int]);
            return false;
        }
        assert(a@.subrange(i as int, i + j + 1) == a@.subrange(i as int, i + j).push(a@[i + j]));
        assert(pat@.subrange(0, j + 1) == pat@.subrange(0, j as int).push(pat@[j as int]));
        j = j + 1;
    }
    assert(pat@ == pat@.subrange(0, pat@.len() as int));
    true
}

/// Whether `a` begins with `pat`.
pub fn starts_with_exec(a: &[char], pat: &[char]) -> (r: bool)
    ensures
        r == starts_with(a@, pat@),
{
    matches_at_exec(a, pat, 0)
}

/// Whether `a` ends with `pat`.
pub fn ends_with_exec(a: &[char], pat: &[char]) -> (r: bool)
    ensures
        r == ends_with(a@, pat@),
{
    if pat.len() > a.len() {
        return false;
    }
    matches_at_exec(a, pat, a.len() - pat.len())
}

/// The first position at or after `i` where `pat` occurs in `s`.
pub open spec fn find_from(s: Seq<char>, pat: Seq<char>, i: int) -> Option<int>
    decreases s.len() - i,
{
    if i < 0 || i + pat.len() > s.len() {
        None
    } else if matches_at(s, pat, i) {
        Some(i)
    } else if i >= s.len() {
        None
    } else {
        find_from(s, pat, i + 1)
    }
}

/// `str::split_once`: the text before and after the first occurrence of `pat`.
pub open spec fn split_once(s: Seq<char>, pat: Seq<char>) -> Option<(Seq<char>, Seq<char>)> {
    match find_from(s, pat, 0) {
        Some(i) => Some((s.subrange(0, i), s.subrange(i + pat.len(), s.len() as int))),
        None => None,
    }
}

/// A match found from position `i` lies at or after `i`, within the text.
proof fn lemma_find_from_bounds(s: Seq<char>, pat: Seq<char>, i: int)
    ensures
        find_from(s, pat, i) matches Some(k) ==> i <= k && matches_at(s, pat, k),
    decreases s.len() - i,
{
    if !(i < 0 || i + pat.len() > s.len()) && !matches_at(s, pat, i) && i < s.len() {
        lemma_find_from_bounds(s, pat, i + 1);
    }
}

/// `str::split_once` over characters.
pub fn split_once_exec(a: &[char], pat: &[char]) -> (r: Option<(Vec<char>, Vec<char>)>)
    ensures
        match split_once(a@, pat@) {
            Some((x, y)) => r matches Some((rx, ry)) && rx@ == x && ry@ == y,
            None => r is None,
        },
{
    let mut i: usize = 0;
    while i <= a.len()
        invariant
            i <= a@.len() + 1,
            find_from(a@, pat@, 0) == find_from(a@, pat@, i as int),
        decreases a@.len() + 1 - i,
    {
        if pat.len() > a.len() - i {
            return None;
        }
        if matches_at_exec(a, pat, i) {
            proof {
                lemma_find_from_bounds(a@, pat@, 0);
            }
            let x = slice_copy(a, 0, i);
            let y = slice_copy(a, i + pat.len(), a.len());
            return Some((x, y));
        }
        if i == a.len() {
            return None;
        }
        i = i + 1;
    }
    None
}

/// Whether `c` has the Unicode `White_Space` property, as `char::is_whitespace` tests.
pub open spec fn is_whitespace(c: char) -> bool {
    let u = c as u32;
    (0x9 <= u <= 0xd) || u == 0x20 || u == 0x85 || u == 0xa0 || u == 0x1680 || (0x2000 <= u
        <= 0x200a) || u == 0x2028 || u == 0x2029 || u == 0x202f || u == 0x205f || u == 0x3000
}

/// `char::is_whitespace`.
pub fn is_whitespace_exec(c: char) -> (r: bool)
    ensures
        r == is_whitespace(c),
{
    let u = c as u32;
    (0x9 <= u && u <= 0xd) || u == 0x20 || u == 0x85 || u == 0xa0 || u == 0x1680 || (0x2000 <= u
        && u <= 0x200a) || u == 0x2028 || u == 0x2029 || u == 0x202f || u == 0x205f || u == 0x3000
}

/// `str::trim_end`: `s` without its trailing whitespace.
pub open spec fn trim_end(s: Seq<char>) -> Seq<char>
    decreases s.len(),
{
    if s.len() > 0 && is_whitespace(s.last()) {
        trim_end(s.drop_last())
    } else {
        s
    }
}

/// `str::trim_end` over characters.
pub fn trim_end_exec(a: &[char]) -> (r: Vec<char>)
    ensures
        r@ == trim_end(a@),
{
    let mut n = a.len();
    assert(a@.subrange(0, n as int) == a@);
    while n > 0 && is_whitespace_exec(a[n - 1])
        invariant
            n <= a@.len(),
            trim_end(a@) == trim_end(a@.subrange(0, n as int)),
        decreases n,
    {
        assert(a@.subrange(0, n as int).drop_last() == a@.subrange(0, n - 1));
        n = n - 1;
    }
    slice_copy(a, 0, n)
}

/// The text of `s` cut at each line feed; the line feeds themselves are dropped.
pub open spec fn split_lines(s: Seq<char>) -> Seq<Seq<char>>
    decreases s.len(),
{
    if s.len() == 0 {
        seq![Seq::<char>::empty()]
    } else {
        let init = split_lines(s.drop_last());
        if s.last() == '\n' {
            init.push(Seq::<char>::empty())
        } else {
            init.update(init.len() - 1, init.last().push(s.last()))
        }
    }
}

/// Splitting a text into lines gives at least one line.
pub proof fn lemma_split_lines_nonempty(s: Seq<char>)
    ensures
        split_lines(s).len() >= 1,
    decreases s.len(),
{
    if s.len() > 0 {
        lemma_split_lines_nonempty(s.drop_last());
    }
}

/// The lines of a text, as `split_lines` gives them.
pub fn split_lines_exec(a: &[char]) -> (r: Vec<Vec<char>>)
    ensures
        r@.len() == split_lines(a@).len(),
        forall|i: int| 0 <= i < r@.len() ==> #[trigger] r@[i]@ == split_lines(a@)[i],
{
    let mut done: Vec<Vec<char>> = Vec::new();
    let mut cur: Vec<char> = Vec::new();
    let mut i: usize = 0;
    while i < a.len()
        invariant
            i <= a@.len(),
            done@.len() + 1 == split_lines(a@.subrange(0, i as int)).len(),
            forall|k: int|
                0 <= k < done@.len() ==> #[trigger] done@[k]@ == split_lines(
                    a@.subrange(0, i as int),
                )[k],
            cur@ == split_lines(a@.subrange(0, i as int)).last(),
        decreases a@.len() - i,
    {
        let ghost pre = a@.subrange(0, i as int);
        assert(a@.subrange(0, i + 1).drop_last() == pre);
        proof {
            lemma_split_lines_nonempty(pre);
        }
        if a[i] == '\n' {
            done.push(cur);
            cur = Vec::new();
        } else {
            cur.push(a[i]);
        }
        i = i + 1;
    }
    assert(a@.subrange(0, a@.len() as int) == a@);
    done.push(cur);
    done
}

/// The character for a decimal digit.
pub open spec fn digit_char(d: nat) -> char {
    ((48 + d) as u32) as char
}

/// Whether `c` is one of the ASCII digits.
pub open spec fn is_digit(c: char) -> bool {
    '0' <= c <= '9'
}

/// The value of a decimal digit character.
pub open spec fn digit_value(c: char) -> nat {
    ((c as u32) - 48) as nat
}

/// The decimal text of a natural number, as `to_string` writes it.
pub open spec fn decimal(n: nat) -> Seq<char>
    decreases n,
{
    if n < 10 {
        seq![digit_char(n)]
    } else {
        decimal(n / 10).push(digit_char(n % 10))
    }
}

/// The number that a sequence of decimal digits denotes.
pub open spec fn digits_value(s: Seq<char>) -> nat
    decreases s.len(),
{
    if s.len() == 0 {
        0
    } else {
        digits_value(s.drop_last()) * 10 + digit_value(s.last())
    }
}

/// Whether every character of `s` is a decimal digit.
pub open spec fn all_digits(s: Seq<char>) -> bool {
    forall|i: int| 0 <= i < s.len() ==> is_digit(#[trigger] s[i])
}

/// What `str::parse` gives for an unsigned integer type whose largest value is `max`:
/// an optional `+`, then one or more decimal digits, whose value is at most `max`.
pub open spec fn parse_unsigned(s: Seq<char>, max: nat) -> Option<nat> {
    let d = if s.len() > 0 && s[0] == '+' {
        s.drop_first()
    } else {
        s
    };
    if d.len() > 0 && all_digits(d) && digits_value(d) <= max {
        Some(digits_value(d))
    } else {
        None
    }
}

/// Appends the decimal text of `n`.
pub fn push_decimal(out: &mut Vec<char>, n: u64)
    ensures
        final(out)@ == old(out)@ + decimal(n as nat),
    decreases n,
{
    if n >= 10 {
        push_decimal(out, n / 10);
    }
    let d: u64 = n % 10;
    let c = ((d as u8) + 48) as char;
    assert(c == digit_char(d as nat));
    out.push(c);
    proof {
        if n >= 10 {
            assert(decimal(n as nat) == decimal((n / 10) as nat).push(digit_char((n % 10) as nat)));
        }
    }
}

/// The decimal text of `n`.
pub fn decimal_string(n: u64) -> (s: String)
    ensures
        s@ == decimal(n as nat),
{
    let mut v: Vec<char> = Vec::new();
    push_decimal(&mut v, n);
    string_of(&v)
}

/// `str::parse::<u64>` over characters.
pub fn parse_u64(a: &[char]) -> (r: Option<u64>)
    ensures
        match parse_unsigned(a@, u64::MAX as nat) {
            Some(n) => r == Some(n as u64),
            None => r is None,
        },
{
    let start: usize = if a.len() > 0 && a[0] == '+' {
        1
    } else {
        0
    };
    let ghost d = if a@.len() > 0 && a@[0] == '+' {
        a@.drop_first()
    } else {
        a@
    };
    assert(d == a@.subrange(start as int, a@.len() as int));
    if start >= a.len() {
        return None;
    }
    let mut v: u64 = 0;
    let mut i = start;
    while i < a.len()
        invariant
            start <= i <= a@.len(),
            d == a@.subrange(start as int, a@.len() as int),
            d == (if a@.len() > 0 && a@[0] == '+' {
                a@.drop_first()
            } else {
                a@
            }),
            all_digits(a@.subrange(start as int, i as int)),
            v as nat == digits_value(a@.subrange(start as int, i as int)),
        decreases a@.len() - i,
    {
        let c = a[i];
        let ghost pre = a@.subrange(start as int, i as int);
        assert(a@.subrange(start as int, i + 1) == pre.push(c));
        assert(pre.push(c).drop_last() == pre);
        if !('0' <= c && c <= '9') {
            assert(d[i - start] == c);
            assert(!is_digit(d[i - start]));
            assert(!all_digits(d));
            return None;
        }
        let dg: u64 = ((c as u32) - 48) as u64;
        if v > (u64::MAX - dg) / 10 {
            proof {
                assert(v * 10 + dg > u64::MAX) by (nonlinear_arith)
                    requires
                        v > (u64::MAX - dg) / 10,
                        dg <= 9,
                ;
                assert(digits_value(pre.push(c)) == v * 10 + dg);
                if all_digits(d) {
                    lemma_digits_value_prefix_bound(d, (i - start + 1) as int);
                    assert(d.subrange(0, (i - start + 1) as int) == pre.push(c));
                }
            }
            return None;
        }
        assert(v * 10 + dg <= u64::MAX) by (nonlinear_arith)
            requires
                v <= (u64::MAX - dg) / 10,
                dg <= 9,
        ;
        v = v * 10 + dg;
        i = i + 1;
    }
    assert(a@.subrange(start as int, a@.len() as int) == d);
    Some(v)
}

/// The value of a digit string is at least the value of any of its prefixes.
proof fn lemma_digits_value_prefix_bound(d: Seq<char>, k: int)
    requires
        0 <= k <= d.len(),
        all_digits(d),
    ensures
        digits_value(d.subrange(0, k)) <= digits_value(d),
    decreases d.len() - k,
{
    if k < d.len() {
        lemma_digits_value_prefix_bound(d, k + 1);
        let p = d.subrange(0, k + 1);
        assert(p.drop_last() == d.subrange(0, k));
        assert(is_digit(d[k]));
        assert(digits_value(p) == digits_value(d.subrange(0, k)) * 10 + digit_value(p.last()));
        assert(digits_value(d.subrange(0, k)) <= digits_value(p)) by (nonlinear_arith)
            requires
                digits_value(p) == digits_value(d.subrange(0, k)) * 10 + digit_value(p.last()),
        ;
    } else {
        assert(d.subrange(0, k) == d);
    }
}

/// Decimal text reads back as the number it was written from.
pub proof fn lemma_decimal_parses(n: nat)
    ensures
        all_digits(decimal(n)),
        decimal(n).len() > 0,
        digits_value(decimal(n)) == n,
        decimal(n)[0] != '+',
    decreases n,
{
    if n >= 10 {
        lemma_decimal_parses(n / 10);
        let s = decimal(n);
        assert(s.drop_last() == decimal(n / 10));
        assert(s[0] == decimal(n / 10)[0]);
        assert forall|i: int| 0 <= i < s.len() implies is_digit(#[trigger] s[i]) by {
            if i < s.len() - 1 {
                assert(s[i] == decimal(n / 10)[i]);
            }
        }
        lemma_digit_char_value((n % 10) as nat);
        assert(digits_value(s) == (n / 10) * 10 + n % 10);
        assert((n / 10) * 10 + n % 10 == n) by (nonlinear_arith);
    } else {
        lemma_digit_char_value(n);
        assert(decimal(n).drop_last() == Seq::<char>::empty());
        assert(digits_value(Seq::<char>::empty()) == 0);
    }
}

/// A digit character denotes its digit.
proof fn lemma_digit_char_value(k: nat)
    requires
        k < 10,
    ensures
        digit_value(digit_char(k)) == k,
        is_digit(digit_char(k)),
        digit_char(k) != '+',
{
    assert(digit_char(k) as u32 == 48 + k);
}

/// `parse_unsigned` reads back the decimal text of any value up to `max`.
pub proof fn lemma_parse_decimal(n: nat, max: nat)
    requires
        n <= max,
    ensures
        parse_unsigned(decimal(n), max) == Some(n),
{
    lemma_decimal_parses(n);
}


/// The first match at or after `j` is at `i` when `pat` matches at `i` and nowhere in
/// between.
pub proof fn lemma_find_from_first(s: Seq<char>, pat: Seq<char>, j: int, i: int)
    requires
        0 <= j <= i,
        matches_at(s, pat, i),
        forall|x: int| j <= x < i ==> !matches_at(s, pat, x),
    ensures
        find_from(s, pat, j) == Some(i),
    decreases i - j,
{
    if j < i {
        lemma_find_from_first(s, pat, j + 1, i);
    }
}

/// There is no match at or after `j` when `pat` matches nowhere from `j` on.
pub proof fn lemma_find_from_none(s: Seq<char>, pat: Seq<char>, j: int)
    requires
        0 <= j,
        forall|x: int| j <= x ==> !matches_at(s, pat, x),
    ensures
        find_from(s, pat, j) is None,
    decreases s.len() - j,
{
    if !(j + pat.len() > s.len()) && j < s.len() {
        lemma_find_from_none(s, pat, j + 1);
    }
}

/// A single-character pattern matches where that character stands.
pub proof fn lemma_matches_char(s: Seq<char>, c: char, x: int)
    ensures
        matches_at(s, seq![c], x) <==> (0 <= x < s.len() && s[x] == c),
{
    if 0 <= x < s.len() {
        assert(s.subrange(x, x + 1) =~= seq![s[x]]);
        if matches_at(s, seq![c], x) {
            assert(s.subrange(x, x + 1)[0] == seq![c][0]);
        }
    }
}

/// Text with no `c` in it splits at the first `c` after it.
pub proof fn lemma_split_once_char(a: Seq<char>, c: char, b: Seq<char>)
    requires
        !a.contains(c),
    ensures
        split_once(a + seq![c] + b, seq![c]) == Some((a, b)),
{
    let s = a + seq![c] + b;
    assert forall|x: int| 0 <= x < a.len() implies !matches_at(s, seq![c], x) by {
        lemma_matches_char(s, c, x);
        assert(s[x] == a[x]);
    }
    lemma_matches_char(s, c, a.len() as int);
    lemma_find_from_first(s, seq![c], 0, a.len() as int);
    assert(s.subrange(0, a.len() as int) =~= a);
    assert(s.subrange((a.len() + 1) as int, s.len() as int) =~= b);
}

/// Trimming leaves text alone whose last character is not whitespace.
pub proof fn lemma_trim_end_keeps(s: Seq<char>)
    requires
        s.len() == 0 || !is_whitespace(s.last()),
    ensures
        trim_end(s) == s,
{
}

} // verus!
