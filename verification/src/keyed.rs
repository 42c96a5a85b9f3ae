//! Maps keyed by text, held as sequences of `(key, value)` pairs. A
//! lookup takes the first pair with the key; a sorted sequence holds its
//! keys in strictly ascending order of their characters, which is the
//! order in which a `BTreeMap<String, _>` walks them.
use vstd::prelude::*;
use crate::text::{chars_of, copy_str};

verus! {

/// Lexicographic order of character sequences, character by character
/// by code point (the order of `String`'s `Ord`).
pub open spec fn seq_lt(a: Seq<char>, b: Seq<char>) -> bool
    decreases a.len(),
{
    if a.len() == 0 {
        b.len() > 0
    } else if b.len() == 0 {
        false
    } else if a[0] != b[0] {
        (a[0] as int) < (b[0] as int)
    } else {
        seq_lt(a.drop_first(), b.drop_first())
    }
}

/// Whether the keys of `s` ascend strictly.
pub open spec fn sorted_keys<T>(s: Seq<(String, T)>) -> bool {
    forall|i: int, j: int| 0 <= i < j < s.len() ==> seq_lt(#[trigger] s[i].0@, #[trigger] s[j].0@)
}

/// Whether some pair of `s` has the key `key`.
pub open spec fn has_key<T>(s: Seq<(String, T)>, key: Seq<char>) -> bool {
    exists|i: int| 0 <= i < s.len() && #[trigger] s[i].0@ == key
}

/// Whether `i` is the first position of `s` with the key `key`.
pub open spec fn is_first_index<T>(s: Seq<(String, T)>, key: Seq<char>, i: int) -> bool {
    &&& 0 <= i < s.len()
    &&& s[i].0@ == key
    &&& forall|j: int| 0 <= j < i ==> #[trigger] s[j].0@ != key
}

/// The first position of `s` with the key `key`.
pub open spec fn first_index<T>(s: Seq<(String, T)>, key: Seq<char>) -> int {
    choose|i: int| is_first_index(s, key, i)
}

/// The value of the first pair of `s` with the key `key`.
pub open spec fn lookup<T>(s: Seq<(String, T)>, key: Seq<char>) -> Option<T> {
    if has_key(s, key) {
        Some(s[first_index(s, key)].1)
    } else {
        None
    }
}

/// The first index is the one position that has the property.
pub proof fn lemma_first_index_unique<T>(s: Seq<(String, T)>, key: Seq<char>, i: int)
    requires
        is_first_index(s, key, i),
    ensures
        has_key(s, key),
        first_index(s, key) == i,
        lookup(s, key) == Some(s[i].1),
{
    let w = first_index(s, key);
    assert(is_first_index(s, key, w));
    if w < i {
        assert(s[w].0@ != key);
    } else if w > i {
        assert(s[i].0@ != key);
    }
}

/// A key that no pair has is looked up as `None`, and one that some pair
/// has has a first position.
pub proof fn lemma_has_key_first<T>(s: Seq<(String, T)>, key: Seq<char>)
    requires
        has_key(s, key),
    ensures
        is_first_index(s, key, first_index(s, key)),
    decreases s.len(),
{
    let i = choose|i: int| 0 <= i < s.len() && #[trigger] s[i].0@ == key;
    lemma_least_index(s, key, i);
}

proof fn lemma_least_index<T>(s: Seq<(String, T)>, key: Seq<char>, i: int)
    requires
        0 <= i < s.len(),
        s[i].0@ == key,
    ensures
        is_first_index(s, key, first_index(s, key)),
    decreases i,
{
    if exists|j: int| 0 <= j < i && #[trigger] s[j].0@ == key {
        let j = choose|j: int| 0 <= j < i && #[trigger] s[j].0@ == key;
        lemma_least_index(s, key, j);
    } else {
        assert(is_first_index(s, key, i));
    }
}

/// In a sorted sequence a key sits at one position only.
pub proof fn lemma_sorted_lookup<T>(s: Seq<(String, T)>, i: int)
    requires
        sorted_keys(s),
        0 <= i < s.len(),
    ensures
        is_first_index(s, s[i].0@, i),
        lookup(s, s[i].0@) == Some(s[i].1),
{
    assert forall|j: int| 0 <= j < i implies #[trigger] s[j].0@ != s[i].0@ by {
        lemma_lt_irreflexive(s[i].0@);
        assert(seq_lt(s[j].0@, s[i].0@));
    }
    lemma_first_index_unique(s, s[i].0@, i);
}

/// No sequence comes before itself.
pub proof fn lemma_lt_irreflexive(a: Seq<char>)
    ensures
        !seq_lt(a, a),
    decreases a.len(),
{
    if a.len() > 0 {
        lemma_lt_irreflexive(a.drop_first());
    }
}

/// Of two sequences that come before one another, neither does.
pub proof fn lemma_lt_asymmetric(a: Seq<char>, b: Seq<char>)
    ensures
        !(seq_lt(a, b) && seq_lt(b, a)),
    decreases a.len(),
{
    if a.len() > 0 && b.len() > 0 && a[0] == b[0] {
        lemma_lt_asymmetric(a.drop_first(), b.drop_first());
    }
}

/// Of two different sequences, one comes before the other.
pub proof fn lemma_lt_total(a: Seq<char>, b: Seq<char>)
    requires
        a != b,
    ensures
        seq_lt(a, b) || seq_lt(b, a),
    decreases a.len(),
{
    if a.len() > 0 && b.len() > 0 && a[0] == b[0] {
        if a.drop_first() == b.drop_first() {
            assert(a =~= seq![a[0]] + a.drop_first());
            assert(b =~= seq![b[0]] + b.drop_first());
        }
        lemma_lt_total(a.drop_first(), b.drop_first());
    } else if a.len() > 0 && b.len() > 0 {
        assert((a[0] as int) != (b[0] as int));
    } else if a.len() == 0 && b.len() == 0 {
        assert(a =~= b);
    }
}

/// The order is transitive.
pub proof fn lemma_lt_transitive(a: Seq<char>, b: Seq<char>, c: Seq<char>)
    requires
        seq_lt(a, b),
        seq_lt(b, c),
    ensures
        seq_lt(a, c),
    decreases a.len(),
{
    if a.len() > 0 && b.len() > 0 && c.len() > 0 && a[0] == b[0] && b[0] == c[0] {
        lemma_lt_transitive(a.drop_first(), b.drop_first(), c.drop_first());
    }
}

proof fn lemma_lt_step(a: Seq<char>, b: Seq<char>, i: int)
    requires
        0 <= i < a.len(),
        i < b.len(),
        a[i] == b[i],
    ensures
        seq_lt(a.skip(i), b.skip(i)) == seq_lt(a.skip(i + 1), b.skip(i + 1)),
{
    assert(a.skip(i).drop_first() =~= a.skip(i + 1));
    assert(b.skip(i).drop_first() =~= b.skip(i + 1));
}

/// Whether `a` comes before `b`.
pub fn str_lt(a: &str, b: &str) -> (r: bool)
    ensures
        r == seq_lt(a@, b@),
{
    let x = chars_of(a);
    let y = chars_of(b);
    let mut i: usize = 0;
    assert(x@.skip(0) =~= x@);
    assert(y@.skip(0) =~= y@);
    while i < x.len() && i < y.len()
        invariant
            x@ == a@,
            y@ == b@,
            i <= x.len(),
            i <= y.len(),
            seq_lt(a@, b@) == seq_lt(x@.skip(i as int), y@.skip(i as int)),
        decreases x.len() - i,
    {
        if x[i] != y[i] {
            return x[i] < y[i];
        }
        proof {
            lemma_lt_step(x@, y@, i as int);
        }
        i = i + 1;
    }
    i < y.len()
}

/// The first position of `s` whose key is `key`, if any.
pub fn find_key<T>(s: &Vec<(String, T)>, key: &str) -> (r: Option<usize>)
    ensures
        r is Some <==> has_key(s@, key@),
        r matches Some(i) ==> is_first_index(s@, key@, i as int) && first_index(s@, key@) == i
            && lookup(s@, key@) == Some(s@[i as int].1),
        r is None ==> lookup(s@, key@) is None,
{
    let mut i: usize = 0;
    while i < s.len()
        invariant
            i <= s.len(),
            forall|j: int| 0 <= j < i ==> #[trigger] s@[j].0@ != key@,
        decreases s.len() - i,
    {
        if crate::text::str_eq(s[i].0.as_str(), key) {
            proof {
                lemma_first_index_unique(s@, key@, i as int);
            }
            return Some(i);
        }
        i = i + 1;
    }
    None
}

/// The first position of the sorted `s` whose key does not come before
/// `key` (the length of `s` where every key does).
#[verifier::spinoff_prover]
pub fn lower_bound<T>(s: &Vec<(String, T)>, key: &str) -> (p: usize)
    requires
        sorted_keys(s@),
    ensures
        p <= s.len(),
        forall|j: int| 0 <= j < p ==> seq_lt(#[trigger] s@[j].0@, key@),
        p < s.len() ==> !seq_lt(s@[p as int].0@, key@),
{
    let mut lo: usize = 0;
    let mut hi: usize = s.len();
    while lo < hi
        invariant
            lo <= hi <= s.len(),
            sorted_keys(s@),
            forall|j: int| 0 <= j < lo ==> seq_lt(#[trigger] s@[j].0@, key@),
            forall|j: int| hi <= j < s.len() ==> !seq_lt(#[trigger] s@[j].0@, key@),
        decreases hi - lo,
    {
        let mid = lo + (hi - lo) / 2;
        if str_lt(s[mid].0.as_str(), key) {
            assert forall|j: int| 0 <= j < mid + 1 implies seq_lt(#[trigger] s@[j].0@, key@) by {
                if j < mid {
                    assert(seq_lt(s@[j].0@, s@[mid as int].0@));
                    lemma_lt_transitive(s@[j].0@, s@[mid as int].0@, key@);
                }
            }
            lo = mid + 1;
        } else {
            assert forall|j: int| mid <= j < s.len() implies !seq_lt(#[trigger] s@[j].0@, key@) by {
                if j > mid && seq_lt(s@[j].0@, key@) {
                    assert(seq_lt(s@[mid as int].0@, s@[j].0@));
                    lemma_lt_transitive(s@[mid as int].0@, s@[j].0@, key@);
                }
            }
            hi = mid;
        }
    }
    lo
}

/// The position of `key` in the sorted `s`, if some pair has it.
pub fn find_sorted<T>(s: &Vec<(String, T)>, key: &str) -> (r: Option<usize>)
    requires
        sorted_keys(s@),
    ensures
        r is Some <==> has_key(s@, key@),
        r matches Some(i) ==> i < s.len() && s@[i as int].0@ == key@ && lookup(s@, key@) == Some(
            s@[i as int].1,
        ),
        r is None ==> lookup(s@, key@) is None,
{
    let p = lower_bound(s, key);
    if p < s.len() && crate::text::str_eq(s[p].0.as_str(), key) {
        proof {
            lemma_sorted_lookup(s@, p as int);
        }
        Some(p)
    } else {
        assert(!has_key(s@, key@)) by {
            if has_key(s@, key@) {
                let w = choose|w: int| 0 <= w < s@.len() && #[trigger] s@[w].0@ == key@;
                if w < p {
                    lemma_lt_irreflexive(key@);
                } else if w > p {
                    assert(seq_lt(s@[p as int].0@, s@[w].0@));
                    if s@[p as int].0@ != key@ {
                        lemma_lt_total(s@[p as int].0@, key@);
                    }
                }
            }
        }
        None
    }
}

/// Puts `value` under `key` into the sorted `s`: it replaces the value of
/// a pair with that key, or else comes in as a new pair at the position
/// that keeps the keys ascending.
#[verifier::spinoff_prover]
pub fn insert_sorted<T>(s: &mut Vec<(String, T)>, key: String, value: T)
    requires
        sorted_keys(old(s)@),
    ensures
        sorted_keys(final(s)@),
        forall|k: Seq<char>|
            #[trigger] lookup(final(s)@, k) == if k == key@ {
                Some(value)
            } else {
                lookup(old(s)@, k)
            },
        final(s)@.len() == old(s)@.len() + if has_key(old(s)@, key@) {
            0int
        } else {
            1int
        },
{
    let ghost old_s = s@;
    let p = lower_bound(s, key.as_str());
    if p < s.len() && crate::text::str_eq(s[p].0.as_str(), key.as_str()) {
        let ghost kv = key@;
        s.set(p, (key, value));
        proof {
            assert forall|i: int, j: int| 0 <= i < j < s@.len() implies seq_lt(
                #[trigger] s@[i].0@,
                #[trigger] s@[j].0@,
            ) by {
                assert(old_s[i].0@ == s@[i].0@);
                assert(old_s[j].0@ == s@[j].0@);
            }
            assert(has_key(old_s, kv)) by {
                assert(old_s[p as int].0@ == kv);
            }
            assert forall|k: Seq<char>| #[trigger]
                lookup(s@, k) == if k == kv {
                    Some(value)
                } else {
                    lookup(old_s, k)
                } by {
                if k == kv {
                    lemma_sorted_lookup(s@, p as int);
                } else if has_key(old_s, k) {
                    let w = choose|w: int| 0 <= w < old_s.len() && #[trigger] old_s[w].0@ == k;
                    lemma_sorted_lookup(old_s, w);
                    lemma_sorted_lookup(s@, w);
                } else {
                    assert(!has_key(s@, k)) by {
                        if has_key(s@, k) {
                            let w = choose|w: int| 0 <= w < s@.len() && #[trigger] s@[w].0@ == k;
                            assert(old_s[w].0@ == k);
                        }
                    }
                }
            }
        }
    } else {
        let ghost kv = key@;
        proof {
            if p < old_s.len() {
                lemma_lt_total(old_s[p as int].0@, kv);
            }
        }
        s.insert(p, (key, value));
        proof {
            assert forall|i: int, j: int| 0 <= i < j < s@.len() implies seq_lt(
                #[trigger] s@[i].0@,
                #[trigger] s@[j].0@,
            ) by {
                if j < p {
                    assert(s@[i] == old_s[i] && s@[j] == old_s[j]);
                } else if j == p {
                    assert(s@[i] == old_s[i]);
                } else if i == p {
                    assert(s@[j] == old_s[j - 1]);
                    if j - 1 > p {
                        assert(seq_lt(old_s[p as int].0@, old_s[j - 1].0@));
                        lemma_lt_transitive(kv, old_s[p as int].0@, old_s[j - 1].0@);
                    }
                } else if i < p {
                    assert(s@[i] == old_s[i] && s@[j] == old_s[j - 1]);
                } else {
                    assert(s@[i] == old_s[i - 1] && s@[j] == old_s[j - 1]);
                }
            }
            assert(!has_key(old_s, kv)) by {
                if has_key(old_s, kv) {
                    let w = choose|w: int| 0 <= w < old_s.len() && #[trigger] old_s[w].0@ == kv;
                    if w < p {
                        lemma_lt_irreflexive(kv);
                    } else if w == p {
                    } else {
                        assert(seq_lt(old_s[p as int].0@, old_s[w].0@));
                        lemma_lt_asymmetric(kv, old_s[p as int].0@);
                    }
                }
            }
            assert forall|k: Seq<char>| #[trigger]
                lookup(s@, k) == if k == kv {
                    Some(value)
                } else {
                    lookup(old_s, k)
                } by {
                if k == kv {
                    lemma_sorted_lookup(s@, p as int);
                } else if has_key(old_s, k) {
                    let w = choose|w: int| 0 <= w < old_s.len() && #[trigger] old_s[w].0@ == k;
                    lemma_sorted_lookup(old_s, w);
                    if w < p {
                        lemma_sorted_lookup(s@, w);
                    } else {
                        assert(s@[w + 1] == old_s[w]);
                        lemma_sorted_lookup(s@, w + 1);
                    }
                } else {
                    assert(!has_key(s@, k)) by {
                        if has_key(s@, k) {
                            let w = choose|w: int| 0 <= w < s@.len() && #[trigger] s@[w].0@ == k;
                            if w < p {
                                assert(old_s[w].0@ == k);
                            } else if w > p {
                                assert(old_s[w - 1].0@ == k);
                            }
                        }
                    }
                }
            }
        }
    }
}


/// The names of `s`, each as its characters.
pub open spec fn names_of(s: Seq<String>) -> Seq<Seq<char>> {
    s.map_values(|x: String| x@)
}

/// Whether the names of `s` come in ascending order (equal names side by
/// side).
pub open spec fn ascending(s: Seq<Seq<char>>) -> bool {
    forall|i: int, j: int| 0 <= i < j < s.len() ==> !seq_lt(#[trigger] s[j], #[trigger] s[i])
}

/// Whether the names of `s` ascend strictly: no name twice.
pub open spec fn strictly_ascending(s: Seq<Seq<char>>) -> bool {
    forall|i: int, j: int| 0 <= i < j < s.len() ==> seq_lt(#[trigger] s[i], #[trigger] s[j])
}

/// How many leading names of `t` do not come after `x`.
pub open spec fn upper_pos(t: Seq<Seq<char>>, x: Seq<char>) -> nat
    decreases t.len(),
{
    if t.len() == 0 {
        0
    } else if seq_lt(x, t[0]) {
        0
    } else {
        1 + upper_pos(t.drop_first(), x)
    }
}

/// `t` with `x` inserted after the leading names that do not come after
/// it.
pub open spec fn insert_name(t: Seq<Seq<char>>, x: Seq<char>) -> Seq<Seq<char>> {
    t.take(upper_pos(t, x) as int) + seq![x] + t.skip(upper_pos(t, x) as int)
}

/// The names of `s` in name order: each inserted in turn after the names
/// that do not come after it.
pub open spec fn sorted_names(s: Seq<Seq<char>>) -> Seq<Seq<char>>
    decreases s.len(),
{
    if s.len() == 0 {
        s
    } else {
        insert_name(sorted_names(s.drop_last()), s.last())
    }
}

proof fn lemma_upper_pos(t: Seq<Seq<char>>, x: Seq<char>)
    requires
        ascending(t),
    ensures
        upper_pos(t, x) <= t.len(),
        forall|i: int| 0 <= i < upper_pos(t, x) ==> !seq_lt(x, #[trigger] t[i]),
        forall|i: int| upper_pos(t, x) <= i < t.len() ==> seq_lt(x, #[trigger] t[i]),
    decreases t.len(),
{
    if t.len() > 0 {
        let r = t.drop_first();
        assert(ascending(r)) by {
            assert forall|i: int, j: int| 0 <= i < j < r.len() implies !seq_lt(#[trigger] r[j], #[trigger] r[i]) by {
                assert(r[i] == t[i + 1] && r[j] == t[j + 1]);
            }
        }
        lemma_upper_pos(r, x);
        if seq_lt(x, t[0]) {
            assert forall|i: int| 0 <= i < t.len() implies seq_lt(x, #[trigger] t[i]) by {
                if i > 0 {
                    assert(!seq_lt(t[i], t[0]));
                    if t[i] != t[0] {
                        lemma_lt_total(t[i], t[0]);
                        lemma_lt_transitive(x, t[0], t[i]);
                    }
                }
            }
        } else {
            assert forall|i: int| 0 <= i < upper_pos(t, x) implies !seq_lt(x, #[trigger] t[i]) by {
                if i > 0 {
                    assert(t[i] == r[i - 1]);
                }
            }
            assert forall|i: int| upper_pos(t, x) <= i < t.len() implies seq_lt(x, #[trigger] t[i]) by {
                assert(t[i] == r[i - 1]);
            }
        }
    }
}

proof fn lemma_insert_name_ascending(t: Seq<Seq<char>>, x: Seq<char>)
    requires
        ascending(t),
    ensures
        ascending(insert_name(t, x)),
        insert_name(t, x).len() == t.len() + 1,
{
    lemma_upper_pos(t, x);
    let p = upper_pos(t, x) as int;
    let u = insert_name(t, x);
    assert(u.len() == t.len() + 1);
    assert forall|i: int, j: int| 0 <= i < j < u.len() implies !seq_lt(#[trigger] u[j], #[trigger] u[i]) by {
        if j < p {
            assert(u[i] == t[i] && u[j] == t[j]);
        } else if j == p {
            assert(u[j] == x && u[i] == t[i]);
            assert(!seq_lt(x, t[i]));
            lemma_lt_asymmetric(x, t[i]);
            if x != t[i] {
                lemma_lt_total(x, t[i]);
            } else {
                lemma_lt_irreflexive(x);
            }
        } else if i < p {
            assert(u[i] == t[i] && u[j] == t[j - 1]);
            assert(!seq_lt(t[j - 1], t[i]));
        } else if i == p {
            assert(u[i] == x && u[j] == t[j - 1]);
            assert(seq_lt(x, t[j - 1]));
            lemma_lt_asymmetric(x, t[j - 1]);
        } else {
            assert(u[i] == t[i - 1] && u[j] == t[j - 1]);
        }
    }
}

/// Names in name order ascend, and there are as many as there were.
pub proof fn lemma_sorted_names(s: Seq<Seq<char>>)
    ensures
        ascending(sorted_names(s)),
        sorted_names(s).len() == s.len(),
    decreases s.len(),
{
    if s.len() > 0 {
        lemma_sorted_names(s.drop_last());
        lemma_insert_name_ascending(sorted_names(s.drop_last()), s.last());
    }
}

/// The names of `items` in name order.
pub fn sort_by_name(items: &Vec<String>) -> (r: Vec<String>)
    ensures
        names_of(r@) == sorted_names(names_of(items@)),
        ascending(names_of(r@)),
{
    let mut out: Vec<String> = Vec::new();
    let mut i: usize = 0;
    while i < items.len()
        invariant
            i <= items.len(),
            names_of(out@) == sorted_names(names_of(items@.take(i as int))),
        decreases items.len() - i,
    {
        let ghost t = names_of(out@);
        let ghost x = items@[i as int]@;
        assert(names_of(items@.take(i + 1)).drop_last() =~= names_of(items@.take(i as int)));
        assert(names_of(items@.take(i + 1)).last() == x);
        let mut j: usize = 0;
        assert(t.skip(0) =~= t);
        while j < out.len() && !str_lt(items[i].as_str(), out[j].as_str())
            invariant
                j <= out.len(),
                i < items.len(),
                t == names_of(out@),
                x == items@[i as int]@,
                upper_pos(t, x) == j + upper_pos(t.skip(j as int), x),
            decreases out.len() - j,
        {
            assert(t.skip(j as int).drop_first() =~= t.skip(j + 1));
            assert(t.skip(j as int)[0] == t[j as int]);
            j = j + 1;
        }
        if j < out.len() {
            assert(t.skip(j as int)[0] == t[j as int]);
        }
        let name = copy_str(items[i].as_str());
        out.insert(j, name);
        assert(names_of(out@) =~= insert_name(t, x));
        i = i + 1;
    }
    assert(items@.take(i as int) =~= items@);
    proof {
        lemma_sorted_names(names_of(items@));
    }
    out
}

} // verus!
