//! Sequences of `(key, value)` pairs kept sorted by key, standing for the
//! ordered maps of the spec reader.

use vstd::prelude::*;

verus! {

/// `a < b` in the order of `String` (code point by code point).
pub open spec fn seq_less(a: Seq<char>, b: Seq<char>) -> bool
    decreases a.len(),
{
    if a.len() == 0 {
        b.len() > 0
    } else if b.len() == 0 {
        false
    } else if a[0] != b[0] {
        (a[0] as int) < (b[0] as int)
    } else {
        seq_less(a.drop_first(), b.drop_first())
    }
}

pub proof fn lemma_less_irreflexive(a: Seq<char>)
    ensures
        !seq_less(a, a),
    decreases a.len(),
{
    if a.len() > 0 {
        lemma_less_irreflexive(a.drop_first());
    }
}

pub proof fn lemma_less_transitive(a: Seq<char>, b: Seq<char>, c: Seq<char>)
    requires
        seq_less(a, b),
        seq_less(b, c),
    ensures
        seq_less(a, c),
    decreases a.len(),
{
    if a.len() > 0 && b.len() > 0 && c.len() > 0 && a[0] == b[0] && b[0] == c[0] {
        lemma_less_transitive(a.drop_first(), b.drop_first(), c.drop_first());
    }
}

pub proof fn lemma_less_total(a: Seq<char>, b: Seq<char>)
    ensures
        a == b || seq_less(a, b) || seq_less(b, a),
    decreases a.len(),
{
    if a.len() > 0 && b.len() > 0 && a[0] == b[0] {
        lemma_less_total(a.drop_first(), b.drop_first());
        if a.drop_first() == b.drop_first() {
            assert forall|k: int| 0 <= k < a.len() implies a[k] == b[k] by {
                if k > 0 {
                    assert(a[k] == a.drop_first()[k - 1]);
                    assert(b[k] == b.drop_first()[k - 1]);
                }
            }
            assert(a =~= b);
        }
    } else if a.len() == 0 && b.len() == 0 {
        assert(a =~= b);
    }
}

pub proof fn lemma_less_asymmetric(a: Seq<char>, b: Seq<char>)
    requires
        seq_less(a, b),
    ensures
        !seq_less(b, a),
        a != b,
{
    if seq_less(b, a) {
        lemma_less_transitive(a, b, a);
        lemma_less_irreflexive(a);
    }
    if a == b {
        lemma_less_irreflexive(a);
    }
}

/// `a < b` as `String` compares them.
pub fn chars_less(a: &Vec<char>, b: &Vec<char>) -> (r: bool)
    ensures
        r == seq_less(a@, b@),
{
    let mut i: usize = 0;
    assert(a@.skip(0) =~= a@);
    assert(b@.skip(0) =~= b@);
    while i < a.len() && i < b.len() && a[i] == b[i]
        invariant
            i <= a@.len(),
            i <= b@.len(),
            seq_less(a@, b@) == seq_less(a@.skip(i as int), b@.skip(i as int)),
        decreases a@.len() - i,
    {
        assert(a@.skip(i as int).drop_first() =~= a@.skip(i + 1));
        assert(b@.skip(i as int).drop_first() =~= b@.skip(i + 1));
        i = i + 1;
    }
    if i == a.len() {
        i < b.len()
    } else if i == b.len() {
        false
    } else {
        a[i] < b[i]
    }
}

/// The keys are strictly increasing.
pub open spec fn sorted_keys<X>(s: Seq<(String, X)>) -> bool {
    forall|i: int, j: int| 0 <= i < j < s.len() ==> seq_less(#[trigger] s[i].0@, #[trigger] s[j].0@)
}

/// Whether some entry has the key `k`.
pub open spec fn has_key<X>(s: Seq<(String, X)>, k: Seq<char>) -> bool {
    exists|i: int| 0 <= i < s.len() && #[trigger] s[i].0@ == k
}

/// A position whose key is `k`, where there is one.
pub open spec fn key_pos<X>(s: Seq<(String, X)>, k: Seq<char>) -> int {
    choose|i: int| 0 <= i < s.len() && #[trigger] s[i].0@ == k
}

/// In a sorted sequence the key of each entry is found at that entry.
pub proof fn lemma_key_pos<X>(s: Seq<(String, X)>, i: int)
    requires
        sorted_keys(s),
        0 <= i < s.len(),
    ensures
        has_key(s, s[i].0@),
        key_pos(s, s[i].0@) == i,
{
    let k = s[i].0@;
    assert(s[i].0@ == k);
    assert(has_key(s, k));
    let c = key_pos(s, k);
    assert(s[c].0@ == k);
    if c < i {
        assert(seq_less(s[c].0@, s[i].0@));
        lemma_less_irreflexive(k);
    } else if c > i {
        assert(seq_less(s[i].0@, s[c].0@));
        lemma_less_irreflexive(k);
    }
}

/// Giving an entry of a sorted sequence a new value keeps it sorted, and
/// every key where it was.
pub proof fn lemma_replace_value<X>(s: Seq<(String, X)>, i: int, v: X)
    requires
        sorted_keys(s),
        0 <= i < s.len(),
    ensures
        sorted_keys(s.update(i, (s[i].0, v))),
        forall|k: Seq<char>| #[trigger] has_key(s.update(i, (s[i].0, v)), k) == has_key(s, k),
        forall|k: Seq<char>|
            has_key(s, k) ==> #[trigger] key_pos(s.update(i, (s[i].0, v)), k) == key_pos(s, k),
{
    let t = s.update(i, (s[i].0, v));
    assert(sorted_keys(t)) by {
        assert forall|a: int, b: int| 0 <= a < b < t.len() implies seq_less(
            #[trigger] t[a].0@,
            #[trigger] t[b].0@,
        ) by {
            assert(t[a].0 == s[a].0 && t[b].0 == s[b].0);
        }
    }
    assert forall|k: Seq<char>| #[trigger] has_key(t, k) == has_key(s, k) by {
        if has_key(s, k) {
            let j = key_pos(s, k);
            assert(t[j].0@ == k);
        }
        if has_key(t, k) {
            let j = key_pos(t, k);
            assert(s[j].0@ == k);
        }
    }
    assert forall|k: Seq<char>| has_key(s, k) implies #[trigger] key_pos(t, k) == key_pos(s, k) by {
        let j = key_pos(s, k);
        assert(s[j].0@ == k);
        lemma_key_pos(s, j);
        assert(t[j].0@ == k);
        lemma_key_pos(t, j);
    }
}

/// Inserting an entry with a new key at its place in a sorted sequence
/// keeps it sorted; the other keys move past it.
pub proof fn lemma_insert_key<X>(s: Seq<(String, X)>, p: int, e: (String, X))
    requires
        sorted_keys(s),
        0 <= p <= s.len(),
        forall|i: int| 0 <= i < p ==> seq_less(#[trigger] s[i].0@, e.0@),
        forall|i: int| p <= i < s.len() ==> seq_less(e.0@, #[trigger] s[i].0@),
    ensures
        sorted_keys(s.insert(p, e)),
        !has_key(s, e.0@),
        forall|k: Seq<char>| #[trigger] has_key(s.insert(p, e), k) == (has_key(s, k) || k == e.0@),
        key_pos(s.insert(p, e), e.0@) == p,
        forall|k: Seq<char>|
            has_key(s, k) ==> #[trigger] key_pos(s.insert(p, e), k) == if key_pos(s, k) < p {
                key_pos(s, k)
            } else {
                key_pos(s, k) + 1
            },
{
    let t = s.insert(p, e);
    assert(sorted_keys(t)) by {
        assert forall|a: int, b: int| 0 <= a < b < t.len() implies seq_less(
            #[trigger] t[a].0@,
            #[trigger] t[b].0@,
        ) by {
            if b < p {
                assert(t[a] == s[a] && t[b] == s[b]);
            } else if b == p {
                assert(t[a] == s[a]);
            } else if a < p {
                assert(t[a] == s[a] && t[b] == s[b - 1]);
                lemma_less_transitive(s[a].0@, e.0@, s[b - 1].0@);
            } else if a == p {
                assert(t[b] == s[b - 1]);
            } else {
                assert(t[a] == s[a - 1] && t[b] == s[b - 1]);
            }
        }
    }
    if has_key(s, e.0@) {
        let j = key_pos(s, e.0@);
        assert(s[j].0@ == e.0@);
        lemma_less_irreflexive(e.0@);
    }
    assert forall|k: Seq<char>| #[trigger] has_key(t, k) == (has_key(s, k) || k == e.0@) by {
        if has_key(s, k) {
            let j = key_pos(s, k);
            assert(s[j].0@ == k);
            if j < p {
                assert(t[j].0@ == k);
            } else {
                assert(t[j + 1].0@ == k);
            }
        }
        if k == e.0@ {
            assert(t[p].0@ == k);
        }
        if has_key(t, k) && k != e.0@ {
            let j = key_pos(t, k);
            assert(t[j].0@ == k);
            if j < p {
                assert(s[j].0@ == k);
            } else if j > p {
                assert(s[j - 1].0@ == k);
            }
        }
    }
    assert(t[p].0@ == e.0@);
    lemma_key_pos(t, p);
    assert forall|k: Seq<char>| has_key(s, k) implies #[trigger] key_pos(t, k) == if key_pos(s, k) < p {
        key_pos(s, k)
    } else {
        key_pos(s, k) + 1
    } by {
        let j = key_pos(s, k);
        assert(s[j].0@ == k);
        if j < p {
            assert(t[j].0@ == k);
            lemma_key_pos(t, j);
        } else {
            assert(t[j + 1].0@ == k);
            lemma_key_pos(t, j + 1);
        }
    }
}

/// Where `key` is, or would go, in a sorted sequence.
pub fn find_slot<X>(v: &Vec<(String, X)>, key: &Vec<char>) -> (r: (usize, bool))
    requires
        sorted_keys(v@),
    ensures
        r.0 <= v@.len(),
        r.1 ==> r.0 < v@.len() && v@[r.0 as int].0@ == key@,
        !r.1 ==> (forall|i: int| 0 <= i < r.0 ==> seq_less(#[trigger] v@[i].0@, key@)) && (forall|
            i: int,
        | r.0 <= i < v@.len() ==> seq_less(key@, #[trigger] v@[i].0@)),
{
    let mut p: usize = 0;
    while p < v.len() && chars_less(&crate::text::chars_of(v[p].0.as_str()), key)
        invariant
            p <= v@.len(),
            sorted_keys(v@),
            forall|i: int| 0 <= i < p ==> seq_less(#[trigger] v@[i].0@, key@),
        decreases v@.len() - p,
    {
        p = p + 1;
    }
    if p < v.len() && crate::text::str_eq(v[p].0.as_str(), crate::text::string_of(key).as_str()) {
        return (p, true);
    }
    proof {
        if p < v@.len() {
            lemma_less_total(v@[p as int].0@, key@);
            assert forall|i: int| p <= i < v@.len() implies seq_less(key@, #[trigger] v@[i].0@) by {
                if i > p {
                    lemma_less_transitive(key@, v@[p as int].0@, v@[i].0@);
                }
            }
        }
    }
    (p, false)
}

/// A key that sorts strictly between the entries before `p` and those from
/// `p` on is not in the sequence.
pub proof fn lemma_absent<X>(s: Seq<(String, X)>, p: int, k: Seq<char>)
    requires
        0 <= p <= s.len(),
        forall|i: int| 0 <= i < p ==> seq_less(#[trigger] s[i].0@, k),
        forall|i: int| p <= i < s.len() ==> seq_less(k, #[trigger] s[i].0@),
    ensures
        !has_key(s, k),
{
    if has_key(s, k) {
        let j = key_pos(s, k);
        assert(s[j].0@ == k);
        lemma_less_irreflexive(k);
    }
}

/// Sets the value stored under `key`, keeping the sequence sorted: an
/// existing entry gets the new value, a new entry goes where its key sorts.
pub fn put_entry<X>(v: &mut Vec<(String, X)>, key: &Vec<char>, value: X)
    requires
        sorted_keys(old(v)@),
    ensures
        sorted_keys(final(v)@),
        forall|k: Seq<char>| #[trigger] has_key(final(v)@, k) == (has_key(old(v)@, k) || k == key@),
        has_key(final(v)@, key@),
        final(v)@[key_pos(final(v)@, key@)].1 == value,
        forall|k: Seq<char>|
            has_key(old(v)@, k) && k != key@ ==> final(v)@[#[trigger] key_pos(final(v)@, k)].1 == old(
                v,
            )@[key_pos(old(v)@, k)].1,
{
    let ghost s = v@;
    let (p, found) = find_slot(v, key);
    if found {
        proof {
            lemma_key_pos(s, p as int);
        }
        let (k, _) = v.remove(p);
        v.insert(p, (k, value));
        proof {
            assert(v@ =~= s.update(p as int, (s[p as int].0, value)));
            lemma_replace_value(s, p as int, value);
            lemma_key_pos(v@, p as int);
            assert forall|k2: Seq<char>| has_key(s, k2) && k2 != key@ implies v@[
                #[trigger] key_pos(v@, k2)].1 == s[key_pos(s, k2)].1 by {
                let j = key_pos(s, k2);
                assert(s[j].0@ == k2);
                assert(j != p);
            }
        }
    } else {
        let e = (crate::text::string_of(key), value);
        proof {
            lemma_insert_key(s, p as int, e);
        }
        v.insert(p, e);
        proof {
            assert forall|k2: Seq<char>| has_key(s, k2) && k2 != key@ implies v@[
                #[trigger] key_pos(v@, k2)].1 == s[key_pos(s, k2)].1 by {
                let j = key_pos(s, k2);
                assert(s[j].0@ == k2);
            }
        }
    }
}

} // verus!
