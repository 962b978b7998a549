//! The order in which the library sorts text and paths, and a merge sort by that order.
//!
//! Text is ordered character by character, which is the order of `String` (its UTF-8
//! bytes compared one by one). A path is ordered component by component, which is the
//! order of `Path`. A key is a sequence of components; a single piece of text is a key of
//! one component.

use vstd::prelude::*;

verus! {

broadcast use {vstd::seq_lib::group_to_multiset_ensures, vstd::multiset::group_multiset_axioms};

/// Lexicographic order on text: `a` comes before `b` or equals it.
pub open spec fn chars_le(a: Seq<char>, b: Seq<char>) -> bool
    decreases a.len(),
{
    if a.len() == 0 {
        true
    } else if b.len() == 0 {
        false
    } else if a[0] != b[0] {
        a[0] < b[0]
    } else {
        chars_le(a.drop_first(), b.drop_first())
    }
}

/// Lexicographic order on keys, whose components are compared by `chars_le`.
pub open spec fn key_le(a: Seq<Seq<char>>, b: Seq<Seq<char>>) -> bool
    decreases a.len(),
{
    if a.len() == 0 {
        true
    } else if b.len() == 0 {
        false
    } else if a[0] != b[0] {
        chars_le(a[0], b[0])
    } else {
        key_le(a.drop_first(), b.drop_first())
    }
}

/// Any two texts are ordered one way or the other.
pub proof fn lemma_chars_le_total(a: Seq<char>, b: Seq<char>)
    ensures
        chars_le(a, b) || chars_le(b, a),
    decreases a.len(),
{
    if a.len() > 0 && b.len() > 0 && a[0] == b[0] {
        lemma_chars_le_total(a.drop_first(), b.drop_first());
    }
}

/// Texts ordered both ways are equal.
pub proof fn lemma_chars_le_antisymmetric(a: Seq<char>, b: Seq<char>)
    requires
        chars_le(a, b),
        chars_le(b, a),
    ensures
        a == b,
    decreases a.len(),
{
    if a.len() > 0 && b.len() > 0 {
        lemma_chars_le_antisymmetric(a.drop_first(), b.drop_first());
        assert(a == seq![a[0]] + a.drop_first());
        assert(b == seq![b[0]] + b.drop_first());
    }
}

/// The text order is transitive.
pub proof fn lemma_chars_le_transitive(a: Seq<char>, b: Seq<char>, c: Seq<char>)
    requires
        chars_le(a, b),
        chars_le(b, c),
    ensures
        chars_le(a, c),
    decreases a.len(),
{
    if a.len() > 0 && b.len() > 0 && c.len() > 0 && a[0] == b[0] && b[0] == c[0] {
        lemma_chars_le_transitive(a.drop_first(), b.drop_first(), c.drop_first());
    }
}

/// Every text comes before or equals itself.
pub proof fn lemma_chars_le_reflexive(a: Seq<char>)
    ensures
        chars_le(a, a),
    decreases a.len(),
{
    if a.len() > 0 {
        lemma_chars_le_reflexive(a.drop_first());
    }
}

/// Any two keys are ordered one way or the other.
pub proof fn lemma_key_le_total(a: Seq<Seq<char>>, b: Seq<Seq<char>>)
    ensures
        key_le(a, b) || key_le(b, a),
    decreases a.len(),
{
    if a.len() > 0 && b.len() > 0 {
        if a[0] == b[0] {
            lemma_key_le_total(a.drop_first(), b.drop_first());
        } else {
            lemma_chars_le_total(a[0], b[0]);
        }
    }
}

/// The key order is transitive.
pub proof fn lemma_key_le_transitive(a: Seq<Seq<char>>, b: Seq<Seq<char>>, c: Seq<Seq<char>>)
    requires
        key_le(a, b),
        key_le(b, c),
    ensures
        key_le(a, c),
    decreases a.len(),
{
    if a.len() > 0 && b.len() > 0 && c.len() > 0 {
        if a[0] == b[0] && b[0] == c[0] {
            lemma_key_le_transitive(a.drop_first(), b.drop_first(), c.drop_first());
        } else if a[0] == b[0] {
            // b[0] != c[0]
        } else if b[0] == c[0] {
            // a[0] != b[0]
        } else {
            lemma_chars_le_transitive(a[0], b[0], c[0]);
            if a[0] == c[0] {
                lemma_chars_le_antisymmetric(a[0], b[0]);
            }
        }
    }
}

/// Keys ordered both ways are equal.
pub proof fn lemma_key_le_antisymmetric(a: Seq<Seq<char>>, b: Seq<Seq<char>>)
    requires
        key_le(a, b),
        key_le(b, a),
    ensures
        a == b,
    decreases a.len(),
{
    if a.len() > 0 && b.len() > 0 {
        if a[0] == b[0] {
            lemma_key_le_antisymmetric(a.drop_first(), b.drop_first());
            assert(a == seq![a[0]] + a.drop_first());
            assert(b == seq![b[0]] + b.drop_first());
        } else {
            lemma_chars_le_antisymmetric(a[0], b[0]);
        }
    }
}

/// Every key comes before or equals itself.
pub proof fn lemma_key_le_reflexive(a: Seq<Seq<char>>)
    ensures
        key_le(a, a),
    decreases a.len(),
{
    if a.len() > 0 {
        lemma_key_le_reflexive(a.drop_first());
    }
}

/// On keys of one component, the key order is the text order.
pub proof fn lemma_key_le_single(a: Seq<char>, b: Seq<char>)
    ensures
        key_le(seq![a], seq![b]) == chars_le(a, b),
{
    assert(seq![a][0] == a);
    assert(seq![b][0] == b);
    if a == b {
        lemma_chars_le_reflexive(a);
        assert(seq![a].drop_first() == Seq::<Seq<char>>::empty());
        assert(key_le(Seq::<Seq<char>>::empty(), Seq::<Seq<char>>::empty()));
    }
}

/// Text order, computed.
pub fn chars_le_exec(a: &[char], b: &[char]) -> (r: bool)
    ensures
        r == chars_le(a@, b@),
{
    let mut i: usize = 0;
    assert(a@.subrange(0, a@.len() as int) == a@);
    assert(b@.subrange(0, b@.len() as int) == b@);
    while i < a.len() && i < b.len() && a[i] == b[i]
        invariant
            i <= a@.len(),
            i <= b@.len(),
            chars_le(a@, b@) == chars_le(
                a@.subrange(i as int, a@.len() as int),
                b@.subrange(i as int, b@.len() as int),
            ),
        decreases a@.len() - i,
    {
        assert(a@.subrange(i as int, a@.len() as int).drop_first() == a@.subrange(
            i + 1,
            a@.len() as int,
        ));
        assert(b@.subrange(i as int, b@.len() as int).drop_first() == b@.subrange(
            i + 1,
            b@.len() as int,
        ));
        i = i + 1;
    }
    assert(a@.subrange(0, a@.len() as int) == a@);
    assert(b@.subrange(0, b@.len() as int) == b@);
    if i == a.len() {
        true
    } else if i == b.len() {
        false
    } else {
        a[i] < b[i]
    }
}

/// The components of a key, each as text.
pub open spec fn key_view(k: Seq<Vec<char>>) -> Seq<Seq<char>> {
    k.map_values(|v: Vec<char>| v@)
}

/// Key order, computed.
pub fn key_le_exec(a: &Vec<Vec<char>>, b: &Vec<Vec<char>>) -> (r: bool)
    ensures
        r == key_le(key_view(a@), key_view(b@)),
{
    let ghost ka = key_view(a@);
    let ghost kb = key_view(b@);
    let mut i: usize = 0;
    assert(ka.subrange(0, ka.len() as int) == ka);
    assert(kb.subrange(0, kb.len() as int) == kb);
    while i < a.len() && i < b.len() && chars_eq_vec(&a[i], &b[i])
        invariant
            i <= a@.len(),
            i <= b@.len(),
            ka == key_view(a@),
            kb == key_view(b@),
            key_le(ka, kb) == key_le(
                ka.subrange(i as int, ka.len() as int),
                kb.subrange(i as int, kb.len() as int),
            ),
        decreases a@.len() - i,
    {
        assert(ka.subrange(i as int, ka.len() as int).drop_first() == ka.subrange(
            i + 1,
            ka.len() as int,
        ));
        assert(kb.subrange(i as int, kb.len() as int).drop_first() == kb.subrange(
            i + 1,
            kb.len() as int,
        ));
        i = i + 1;
    }
    assert(ka.subrange(0, ka.len() as int) == ka);
    assert(kb.subrange(0, kb.len() as int) == kb);
    if i == a.len() {
        true
    } else if i == b.len() {
        false
    } else {
        chars_le_exec(&a[i], &b[i])
    }
}

/// Whether two character vectors hold the same text.
fn chars_eq_vec(a: &Vec<char>, b: &Vec<char>) -> (r: bool)
    ensures
        r == (a@ == b@),
{
    crate::text::chars_eq(a.as_slice(), b.as_slice())
}

/// Whether the items of `s` come in key order.
pub open spec fn sorted_by_key<T>(s: Seq<(Vec<Vec<char>>, T)>) -> bool {
    forall|i: int, j: int|
        0 <= i < j < s.len() ==> key_le(key_view(#[trigger] s[i].0@), key_view(#[trigger] s[j].0@))
}

/// The items in reverse order.
pub fn reversed<T>(v: Vec<T>) -> (r: Vec<T>)
    ensures
        r@ == v@.reverse(),
{
    let ghost orig = v@;
    let mut v = v;
    let mut r: Vec<T> = Vec::new();
    while v.len() > 0
        invariant
            v@.len() <= orig.len(),
            forall|i: int| 0 <= i < v@.len() ==> #[trigger] v@[i] == orig[i],
            r@.len() + v@.len() == orig.len(),
            forall|i: int| 0 <= i < r@.len() ==> #[trigger] r@[i] == orig[orig.len() - 1 - i],
        decreases v@.len(),
    {
        let ghost n = v@.len() as int;
        let ghost old_v = v@;
        let x = v.pop().unwrap();
        assert(x == orig[n - 1]) by {
            assert(old_v[n - 1] == x);
        }
        assert forall|i: int| 0 <= i < v@.len() implies #[trigger] v@[i] == orig[i] by {
            assert(v@[i] == old_v[i]);
        }
        r.push(x);
    }
    assert(r@ =~= orig.reverse());
    r
}

/// Merges two key-sorted sequences into one.
fn merge<T>(a: Vec<(Vec<Vec<char>>, T)>, b: Vec<(Vec<Vec<char>>, T)>) -> (r: Vec<
    (Vec<Vec<char>>, T),
>)
    requires
        sorted_by_key(a@),
        sorted_by_key(b@),
    ensures
        sorted_by_key(r@),
        r@.to_multiset() == a@.to_multiset().add(b@.to_multiset()),
{
    let ghost total = a@.to_multiset().add(b@.to_multiset());
    let mut a = a;
    let mut b = b;
    let mut desc: Vec<(Vec<Vec<char>>, T)> = Vec::new();
    while a.len() > 0 || b.len() > 0
        invariant
            sorted_by_key(a@),
            sorted_by_key(b@),
            desc@.to_multiset().add(a@.to_multiset()).add(b@.to_multiset()) == total,
            forall|i: int, j: int|
                0 <= i < j < desc@.len() ==> key_le(
                    key_view(#[trigger] desc@[j].0@),
                    key_view(#[trigger] desc@[i].0@),
                ),
            desc@.len() > 0 ==> forall|i: int|
                0 <= i < a@.len() ==> key_le(
                    key_view(#[trigger] a@[i].0@),
                    key_view(desc@.last().0@),
                ),
            desc@.len() > 0 ==> forall|i: int|
                0 <= i < b@.len() ==> key_le(
                    key_view(#[trigger] b@[i].0@),
                    key_view(desc@.last().0@),
                ),
        decreases a@.len() + b@.len(),
    {
        let take_a = if a.len() == 0 {
            false
        } else if b.len() == 0 {
            true
        } else {
            !key_le_exec(&a[a.len() - 1].0, &b[b.len() - 1].0)
        };
        let ghost old_desc = desc@;
        let ghost old_a = a@;
        let ghost old_b = b@;
        if take_a {
            let x = a.pop().unwrap();
            assert(old_a == a@.push(x));
            proof {
                let kx = key_view(x.0@);
                if old_b.len() > 0 {
                    lemma_key_le_total(kx, key_view(old_b.last().0@));
                }
                assert forall|i: int| 0 <= i < a@.len() implies key_le(
                    key_view(#[trigger] a@[i].0@),
                    kx,
                ) by {
                    assert(old_a[i] == a@[i]);
                    assert(old_a[old_a.len() - 1] == x);
                }
                assert forall|i: int| 0 <= i < b@.len() implies key_le(
                    key_view(#[trigger] b@[i].0@),
                    kx,
                ) by {
                    let kl = key_view(old_b.last().0@);
                    if i < b@.len() - 1 {
                        assert(old_b[b@.len() - 1] == old_b.last());
                        assert(key_le(key_view(b@[i].0@), kl));
                    } else {
                        lemma_key_le_reflexive(kl);
                    }
                    lemma_key_le_transitive(key_view(b@[i].0@), kl, kx);
                }
                assert forall|i: int| 0 <= i < old_desc.len() implies key_le(
                    kx,
                    key_view(#[trigger] old_desc[i].0@),
                ) by {
                    assert(key_le(kx, key_view(old_desc.last().0@)));
                    if i < old_desc.len() - 1 {
                        lemma_key_le_transitive(
                            kx,
                            key_view(old_desc.last().0@),
                            key_view(old_desc[i].0@),
                        );
                    }
                }
            }
            desc.push(x);
        } else {
            let x = b.pop().unwrap();
            assert(old_b == b@.push(x));
            proof {
                let kx = key_view(x.0@);
                assert forall|i: int| 0 <= i < b@.len() implies key_le(
                    key_view(#[trigger] b@[i].0@),
                    kx,
                ) by {
                    assert(old_b[i] == b@[i]);
                    assert(old_b[old_b.len() - 1] == x);
                }
                assert forall|i: int| 0 <= i < a@.len() implies key_le(
                    key_view(#[trigger] a@[i].0@),
                    kx,
                ) by {
                    let kl = key_view(old_a.last().0@);
                    if i < a@.len() - 1 {
                        assert(old_a[a@.len() - 1] == old_a.last());
                        assert(key_le(key_view(a@[i].0@), kl));
                    } else {
                        lemma_key_le_reflexive(kl);
                    }
                    lemma_key_le_transitive(key_view(a@[i].0@), kl, kx);
                }
                assert forall|i: int| 0 <= i < old_desc.len() implies key_le(
                    kx,
                    key_view(#[trigger] old_desc[i].0@),
                ) by {
                    assert(key_le(kx, key_view(old_desc.last().0@)));
                    if i < old_desc.len() - 1 {
                        lemma_key_le_transitive(
                            kx,
                            key_view(old_desc.last().0@),
                            key_view(old_desc[i].0@),
                        );
                    }
                }
            }
            desc.push(x);
        }
    }
    let r = reversed(desc);
    proof {
        desc@.lemma_reverse_to_multiset();
        assert(a@.to_multiset() =~= vstd::multiset::Multiset::empty());
        assert(b@.to_multiset() =~= vstd::multiset::Multiset::empty());
        assert forall|i: int, j: int| 0 <= i < j < r@.len() implies key_le(
            key_view(#[trigger] r@[i].0@),
            key_view(#[trigger] r@[j].0@),
        ) by {
            assert(r@[i] == desc@[desc@.len() - 1 - i]);
            assert(r@[j] == desc@[desc@.len() - 1 - j]);
        }
    }
    r
}

/// The items sorted by key: a rearrangement of them in which the keys come in order.
pub fn sort_by_key<T>(items: Vec<(Vec<Vec<char>>, T)>) -> (r: Vec<(Vec<Vec<char>>, T)>)
    ensures
        sorted_by_key(r@),
        r@.to_multiset() == items@.to_multiset(),
    decreases items@.len(),
{
    let n = items.len();
    if n <= 1 {
        return items;
    }
    let ghost all = items@;
    let mut left = items;
    let right = left.split_off(n / 2);
    proof {
        assert(all == left@ + right@);
        vstd::seq_lib::lemma_multiset_commutative(left@, right@);
    }
    let ls = sort_by_key(left);
    let rs = sort_by_key(right);
    merge(ls, rs)
}

/// Sequences with the same elements keep the same elements after each element is mapped.
pub proof fn lemma_map_same_elements<A, B>(a: Seq<A>, b: Seq<A>, f: spec_fn(A) -> B)
    requires
        a.to_multiset() == b.to_multiset(),
    ensures
        a.map_values(f).to_multiset() == b.map_values(f).to_multiset(),
    decreases a.len(),
{
    if a.len() == 0 {
        assert(b.to_multiset().len() == 0);
        assert(b.len() == 0);
        assert(a.map_values(f) == Seq::<B>::empty());
        assert(b.map_values(f) == Seq::<B>::empty());
    } else {
        let x = a[0];
        assert(a.to_multiset().count(x) > 0) by {
            assert(a.contains(x));
        }
        assert(b.contains(x));
        let i = choose|i: int| 0 <= i < b.len() && b[i] == x;
        let b2 = b.remove(i);
        let a2 = a.drop_first();
        assert(a2 == a.remove(0));
        assert(a2.to_multiset() == a.to_multiset().remove(x));
        assert(b2.to_multiset() == b.to_multiset().remove(x));
        lemma_map_same_elements(a2, b2, f);
        assert(a.map_values(f) == a2.map_values(f).insert(0, f(x)));
        assert(b.map_values(f) == b2.map_values(f).insert(i, f(x)));
        assert(a.map_values(f).to_multiset() == a2.map_values(f).to_multiset().insert(f(x)));
        assert(b.map_values(f).to_multiset() == b2.map_values(f).to_multiset().insert(f(x)));
    }
}

/// Whether texts come in text order.
pub open spec fn sorted_texts(s: Seq<Seq<char>>) -> bool {
    forall|i: int, j: int| 0 <= i < j < s.len() ==> chars_le(#[trigger] s[i], #[trigger] s[j])
}

/// The texts of `s` rearranged into text order.
pub open spec fn sorted_copy(s: Seq<Seq<char>>) -> Seq<Seq<char>> {
    choose|t: Seq<Seq<char>>| sorted_texts(t) && t.to_multiset() == s.to_multiset()
}

/// Two sorted sequences with the same elements are the same sequence.
pub proof fn lemma_sorted_texts_unique(a: Seq<Seq<char>>, b: Seq<Seq<char>>)
    requires
        sorted_texts(a),
        sorted_texts(b),
        a.to_multiset() == b.to_multiset(),
    ensures
        a == b,
    decreases a.len(),
{
    a.to_multiset_ensures();
    b.to_multiset_ensures();
    assert(a.len() == b.len());
    if a.len() > 0 {
        let x = a[0];
        let y = b[0];
        assert(a.to_multiset().count(x) > 0);
        assert(b.contains(x));
        let j = choose|j: int| 0 <= j < b.len() && b[j] == x;
        if j > 0 {
            assert(chars_le(b[0], b[j]));
        } else {
            lemma_chars_le_reflexive(y);
        }
        assert(b.to_multiset().count(y) > 0);
        assert(a.contains(y));
        let i = choose|i: int| 0 <= i < a.len() && a[i] == y;
        if i > 0 {
            assert(chars_le(a[0], a[i]));
        } else {
            lemma_chars_le_reflexive(x);
        }
        lemma_chars_le_antisymmetric(x, y);
        let a2 = a.drop_first();
        let b2 = b.drop_first();
        assert(a2 == a.remove(0));
        assert(b2 == b.remove(0));
        assert(a2.to_multiset() == a.to_multiset().remove(x));
        assert(b2.to_multiset() == b.to_multiset().remove(y));
        assert forall|p: int, q: int| 0 <= p < q < a2.len() implies chars_le(
            #[trigger] a2[p],
            #[trigger] a2[q],
        ) by {
            assert(a2[p] == a[p + 1] && a2[q] == a[q + 1]);
        }
        assert forall|p: int, q: int| 0 <= p < q < b2.len() implies chars_le(
            #[trigger] b2[p],
            #[trigger] b2[q],
        ) by {
            assert(b2[p] == b[p + 1] && b2[q] == b[q + 1]);
        }
        lemma_sorted_texts_unique(a2, b2);
        assert(a =~= seq![x] + a2);
        assert(b =~= seq![y] + b2);
    }
}

/// A sorted rearrangement of `s` is its sorted copy.
pub proof fn lemma_sorted_copy(s: Seq<Seq<char>>, t: Seq<Seq<char>>)
    requires
        sorted_texts(t),
        t.to_multiset() == s.to_multiset(),
    ensures
        sorted_copy(s) == t,
{
    let c = sorted_copy(s);
    assert(sorted_texts(c) && c.to_multiset() == s.to_multiset());
    lemma_sorted_texts_unique(c, t);
}

/// The text half of a keyed text.
pub open spec fn keyed_text(p: (Vec<Vec<char>>, String)) -> Seq<char> {
    p.1@
}

/// The texts of a sequence of strings.
pub open spec fn texts_of(s: Seq<String>) -> Seq<Seq<char>> {
    s.map_values(|t: String| t@)
}

/// The strings sorted in text order: the order of `String`'s `Ord`.
pub fn sort_strings(v: &Vec<String>) -> (r: Vec<String>)
    ensures
        texts_of(r@) == sorted_copy(texts_of(v@)),
{
    let mut keyed: Vec<(Vec<Vec<char>>, String)> = Vec::new();
    let mut i: usize = 0;
    while i < v.len()
        invariant
            i <= v@.len(),
            keyed@.len() == i,
            forall|x: int|
                0 <= x < keyed@.len() ==> key_view((#[trigger] keyed@[x]).0@) == seq![
                    keyed@[x].1@,
                ],
            keyed@.map_values(|p: (Vec<Vec<char>>, String)| keyed_text(p)) == texts_of(v@).take(
                i as int,
            ),
        decreases v@.len() - i,
    {
        let ghost old_k = keyed@;
        let t = v[i].clone();
        let key = vec![crate::text::chars_of(t.as_str())];
        assert(key_view(key@) =~= seq![t@]);
        keyed.push((key, t));
        assert(keyed@.map_values(|p: (Vec<Vec<char>>, String)| keyed_text(p)) =~= texts_of(v@).take(
            i + 1,
        ));
        i = i + 1;
    }
    assert(texts_of(v@).take(v@.len() as int) =~= texts_of(v@));
    let ghost keyed_all = keyed@;
    let sorted = sort_by_key(keyed);
    proof {
        lemma_map_same_elements(sorted@, keyed_all, |p: (Vec<Vec<char>>, String)| keyed_text(p));
        assert forall|x: int| 0 <= x < sorted@.len() implies key_view(
            (#[trigger] sorted@[x]).0@,
        ) == seq![sorted@[x].1@] by {
            assert(sorted@.to_multiset().count(sorted@[x]) > 0);
            assert(keyed_all.contains(sorted@[x]));
        }
    }
    let mut r: Vec<String> = Vec::new();
    let mut k: usize = 0;
    while k < sorted.len()
        invariant
            k <= sorted@.len(),
            texts_of(r@) == sorted@.map_values(|p: (Vec<Vec<char>>, String)| keyed_text(p)).take(
                k as int,
            ),
        decreases sorted@.len() - k,
    {
        let ghost before = texts_of(r@);
        let t = sorted[k].1.clone();
        r.push(t);
        assert(texts_of(r@) == before.push(t@));
        assert(t@ == sorted@.map_values(|p: (Vec<Vec<char>>, String)| keyed_text(p))[k as int]);
        assert(texts_of(r@) =~= sorted@.map_values(|p: (Vec<Vec<char>>, String)| keyed_text(p)).take(
            k + 1,
        ));
        k = k + 1;
    }
    proof {
        let out = sorted@.map_values(|p: (Vec<Vec<char>>, String)| keyed_text(p));
        assert(out.take(sorted@.len() as int) =~= out);
        assert forall|a: int, b: int| 0 <= a < b < out.len() implies chars_le(
            #[trigger] out[a],
            #[trigger] out[b],
        ) by {
            assert(key_le(key_view(sorted@[a].0@), key_view(sorted@[b].0@)));
            lemma_key_le_single(out[a], out[b]);
        }
        lemma_sorted_copy(texts_of(v@), texts_of(r@));
    }
    r
}

} // verus!
