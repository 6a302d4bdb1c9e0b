//! Ordering by display name: case-insensitive (Unicode lower case) name first,
//! then the exact path, as a file explorer lists the desktop. Sorting is stable.
use vstd::prelude::*;

use crate::text::{chars_lt, chars_of, lt_chars, to_lowercase, unicode_lowercase};

verus! {

/// A sort key: the name and the path of an entry.
pub type NameKey = (Seq<char>, Seq<char>);

/// `a` sorts strictly before `b`: `a.name.to_lowercase().cmp(&b.name.to_lowercase())
/// .then_with(|| a.path.cmp(&b.path)) == Less`.
pub open spec fn key_lt(a: NameKey, b: NameKey) -> bool {
    let la = unicode_lowercase(a.0);
    let lb = unicode_lowercase(b.0);
    chars_lt(la, lb) || (la == lb && chars_lt(a.1, b.1))
}

/// Index of the first element of `s` that sorts strictly after `x` (`s.len()` if none).
pub open spec fn first_above<T>(s: Seq<T>, x: T, k: spec_fn(T) -> NameKey) -> int
    decreases s.len(),
{
    if s.len() == 0 {
        0
    } else if key_lt(k(x), k(s[0])) {
        0
    } else {
        1 + first_above(s.drop_first(), x, k)
    }
}

/// Stable insertion: `x` goes after every element that does not sort after it.
pub open spec fn insert_by_key<T>(s: Seq<T>, x: T, k: spec_fn(T) -> NameKey) -> Seq<T> {
    s.insert(first_above(s, x, k), x)
}

/// The stable sort of `s` by key.
pub open spec fn sort_by_key<T>(s: Seq<T>, k: spec_fn(T) -> NameKey) -> Seq<T>
    decreases s.len(),
{
    if s.len() == 0 {
        s
    } else {
        insert_by_key(sort_by_key(s.drop_last(), k), s.last(), k)
    }
}

/// No element sorts strictly before an earlier one.
pub open spec fn sorted_by_key<T>(s: Seq<T>, k: spec_fn(T) -> NameKey) -> bool {
    forall|i: int, j: int| 0 <= i < j < s.len() ==> !key_lt(k(#[trigger] s[j]), k(#[trigger] s[i]))
}

pub proof fn lemma_chars_lt_irreflexive(a: Seq<char>)
    ensures
        !chars_lt(a, a),
    decreases a.len(),
{
    if a.len() > 0 {
        lemma_chars_lt_irreflexive(a.drop_first());
    }
}

pub proof fn lemma_chars_lt_transitive(a: Seq<char>, b: Seq<char>, c: Seq<char>)
    requires
        chars_lt(a, b),
        chars_lt(b, c),
    ensures
        chars_lt(a, c),
    decreases a.len(),
{
    if a.len() > 0 && b.len() > 0 && c.len() > 0 {
        if a[0] == b[0] && b[0] == c[0] {
            lemma_chars_lt_transitive(a.drop_first(), b.drop_first(), c.drop_first());
        }
    }
}

pub proof fn lemma_chars_lt_asymmetric(a: Seq<char>, b: Seq<char>)
    requires
        chars_lt(a, b),
    ensures
        !chars_lt(b, a),
    decreases a.len(),
{
    if a.len() > 0 && b.len() > 0 && a[0] == b[0] {
        lemma_chars_lt_asymmetric(a.drop_first(), b.drop_first());
    }
}

pub proof fn lemma_key_lt_transitive(a: NameKey, b: NameKey, c: NameKey)
    requires
        key_lt(a, b),
        key_lt(b, c),
    ensures
        key_lt(a, c),
{
    let la = unicode_lowercase(a.0);
    let lb = unicode_lowercase(b.0);
    let lc = unicode_lowercase(c.0);
    if chars_lt(la, lb) && chars_lt(lb, lc) {
        lemma_chars_lt_transitive(la, lb, lc);
    } else if chars_lt(la, lb) {
    } else if chars_lt(lb, lc) {
    } else {
        lemma_chars_lt_transitive(a.1, b.1, c.1);
    }
}

pub proof fn lemma_key_lt_irreflexive(a: NameKey)
    ensures
        !key_lt(a, a),
{
    lemma_chars_lt_irreflexive(unicode_lowercase(a.0));
    lemma_chars_lt_irreflexive(a.1);
}

/// `first_above` is the first position whose element sorts after `x`.
pub proof fn lemma_first_above<T>(s: Seq<T>, x: T, k: spec_fn(T) -> NameKey)
    ensures
        0 <= first_above(s, x, k) <= s.len(),
        forall|i: int| 0 <= i < first_above(s, x, k) ==> !key_lt(k(x), k(#[trigger] s[i])),
        first_above(s, x, k) < s.len() ==> key_lt(k(x), k(s[first_above(s, x, k)])),
    decreases s.len(),
{
    if s.len() > 0 && !key_lt(k(x), k(s[0])) {
        lemma_first_above(s.drop_first(), x, k);
        assert forall|i: int| 0 <= i < first_above(s, x, k) implies !key_lt(k(x), k(#[trigger] s[i])) by {
            if i > 0 {
                assert(s[i] == s.drop_first()[i - 1]);
            }
        }
    }
}

pub proof fn lemma_first_above_unique<T>(s: Seq<T>, x: T, k: spec_fn(T) -> NameKey, j: int)
    requires
        0 <= j <= s.len(),
        forall|i: int| 0 <= i < j ==> !key_lt(k(x), k(#[trigger] s[i])),
        j < s.len() ==> key_lt(k(x), k(s[j])),
    ensures
        first_above(s, x, k) == j,
{
    lemma_first_above(s, x, k);
    let f = first_above(s, x, k);
    if f < j {
        assert(!key_lt(k(x), k(s[f])));
    }
    if j < f {
        assert(!key_lt(k(x), k(s[j])));
    }
}

pub proof fn lemma_sort_len<T>(s: Seq<T>, k: spec_fn(T) -> NameKey)
    ensures
        sort_by_key(s, k).len() == s.len(),
    decreases s.len(),
{
    if s.len() > 0 {
        lemma_sort_len(s.drop_last(), k);
        lemma_first_above(sort_by_key(s.drop_last(), k), s.last(), k);
    }
}

/// Sorting keeps exactly the elements it was given.
pub proof fn lemma_sort_contains<T>(s: Seq<T>, k: spec_fn(T) -> NameKey)
    ensures
        sort_by_key(s, k).len() == s.len(),
        forall|y: T| #[trigger] sort_by_key(s, k).contains(y) <==> s.contains(y),
    decreases s.len(),
{
    lemma_sort_len(s, k);
    if s.len() > 0 {
        let p = s.drop_last();
        let sp = sort_by_key(p, k);
        lemma_sort_contains(p, k);
        lemma_first_above(sp, s.last(), k);
        let pos = first_above(sp, s.last(), k);
        let r = sp.insert(pos, s.last());
        assert forall|y: T| #[trigger] r.contains(y) <==> s.contains(y) by {
            if r.contains(y) {
                let i = choose|i: int| 0 <= i < r.len() && r[i] == y;
                if i < pos {
                    assert(sp[i] == y);
                    assert(sp.contains(y));
                    let m = choose|m: int| 0 <= m < p.len() && p[m] == y;
                    assert(s[m] == y);
                } else if i > pos {
                    assert(sp[i - 1] == y);
                    assert(sp.contains(y));
                    let m = choose|m: int| 0 <= m < p.len() && p[m] == y;
                    assert(s[m] == y);
                } else {
                    assert(s[s.len() - 1] == y);
                }
            }
            if s.contains(y) {
                let i = choose|i: int| 0 <= i < s.len() && s[i] == y;
                if i < s.len() - 1 {
                    assert(p[i] == y);
                    assert(sp.contains(y));
                    let m = choose|m: int| 0 <= m < sp.len() && sp[m] == y;
                    if m < pos {
                        assert(r[m] == y);
                    } else {
                        assert(r[m + 1] == y);
                    }
                } else {
                    assert(r[pos] == y);
                }
            }
        }
    }
}

/// Sorting is a permutation: the same elements, as often each.
pub proof fn lemma_sort_multiset<T>(s: Seq<T>, k: spec_fn(T) -> NameKey)
    ensures
        sort_by_key(s, k).to_multiset() == s.to_multiset(),
    decreases s.len(),
{
    broadcast use vstd::seq_lib::group_to_multiset_ensures;

    if s.len() > 0 {
        let p = s.drop_last();
        let sp = sort_by_key(p, k);
        lemma_sort_multiset(p, k);
        lemma_sort_len(p, k);
        lemma_first_above(sp, s.last(), k);
        let pos = first_above(sp, s.last(), k);
        assert(sort_by_key(s, k) == sp.insert(pos, s.last()));
        assert(s == p.push(s.last()));
    }
}

/// The sort is sorted.
pub proof fn lemma_sort_sorted<T>(s: Seq<T>, k: spec_fn(T) -> NameKey)
    ensures
        sorted_by_key(sort_by_key(s, k), k),
    decreases s.len(),
{
    if s.len() > 0 {
        let p = s.drop_last();
        let x = s.last();
        let sp = sort_by_key(p, k);
        lemma_sort_sorted(p, k);
        lemma_first_above(sp, x, k);
        let pos = first_above(sp, x, k);
        let r = sp.insert(pos, x);
        assert forall|i: int, j: int| 0 <= i < j < r.len() implies !key_lt(
            k(#[trigger] r[j]),
            k(#[trigger] r[i]),
        ) by {
            if j < pos {
                assert(r[i] == sp[i] && r[j] == sp[j]);
            } else if j == pos {
                assert(r[i] == sp[i]);
            } else if i < pos {
                assert(r[i] == sp[i] && r[j] == sp[j - 1]);
            } else if i == pos {
                // x sorts before sp[pos]; sp[j - 1] is not before sp[pos]
                assert(r[j] == sp[j - 1]);
                if key_lt(k(sp[j - 1]), k(x)) {
                    lemma_key_lt_transitive(k(sp[j - 1]), k(x), k(sp[pos]));
                    if j - 1 > pos {
                        assert(!key_lt(k(sp[j - 1]), k(sp[pos])));
                    } else {
                        lemma_key_lt_irreflexive(k(sp[pos]));
                    }
                }
            } else {
                assert(r[i] == sp[i - 1] && r[j] == sp[j - 1]);
            }
        }
    }
}

/// Sorting an already sorted sequence changes nothing.
pub proof fn lemma_sort_sorted_identity<T>(s: Seq<T>, k: spec_fn(T) -> NameKey)
    requires
        sorted_by_key(s, k),
    ensures
        sort_by_key(s, k) == s,
    decreases s.len(),
{
    if s.len() > 0 {
        let p = s.drop_last();
        assert forall|i: int, j: int| 0 <= i < j < p.len() implies !key_lt(
            k(#[trigger] p[j]),
            k(#[trigger] p[i]),
        ) by {
            assert(p[i] == s[i] && p[j] == s[j]);
        }
        lemma_sort_sorted_identity(p, k);
        assert forall|i: int| 0 <= i < p.len() implies !key_lt(k(s.last()), k(#[trigger] p[i])) by {
            assert(p[i] == s[i]);
            assert(s.last() == s[s.len() - 1]);
        }
        lemma_first_above_unique(p, s.last(), k, p.len() as int);
        assert(p.insert(p.len() as int, s.last()) =~= s);
    }
}

/// `lower(name_a), path_a` sorts strictly before `lower(name_b), path_b`.
pub fn name_key_lt(name_a: &String, path_a: &String, name_b: &String, path_b: &String) -> (r: bool)
    ensures
        r == key_lt((name_a@, path_a@), (name_b@, path_b@)),
{
    let la = chars_of(to_lowercase(name_a.as_str()).as_str());
    let lb = chars_of(to_lowercase(name_b.as_str()).as_str());
    if lt_chars(&la, &lb) {
        return true;
    }
    if lt_chars(&lb, &la) {
        proof {
            lemma_chars_lt_asymmetric(lb@, la@);
        }
        return false;
    }
    proof {
        lemma_chars_trichotomy(la@, lb@);
    }
    let pa = chars_of(path_a.as_str());
    let pb = chars_of(path_b.as_str());
    lt_chars(&pa, &pb)
}

pub proof fn lemma_chars_trichotomy(a: Seq<char>, b: Seq<char>)
    ensures
        chars_lt(a, b) || chars_lt(b, a) || a == b,
    decreases a.len(),
{
    if a.len() == 0 && b.len() == 0 {
        assert(a =~= b);
    } else if a.len() > 0 && b.len() > 0 && a[0] == b[0] {
        lemma_chars_trichotomy(a.drop_first(), b.drop_first());
        if a.drop_first() == b.drop_first() {
            assert(a.drop_first().len() == a.len() - 1);
            assert(b.drop_first().len() == b.len() - 1);
            assert(a.len() == b.len());
            assert(a =~= b) by {
                assert forall|i: int| 0 <= i < a.len() implies a[i] == b[i] by {
                    if i > 0 {
                        assert(a[i] == a.drop_first()[i - 1]);
                        assert(b[i] == b.drop_first()[i - 1]);
                    }
                }
            }
        }
    } else if a.len() > 0 && b.len() > 0 {
        vstd::utf8::char_u32_cast(a[0], a[0] as u32);
        vstd::utf8::char_u32_cast(b[0], b[0] as u32);
        assert((a[0] as u32) != (b[0] as u32));
    }
}

} // verus!
