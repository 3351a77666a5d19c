//! Association lists keyed by text, in which no key occurs twice.
//!
//! A list stands for a finite map: a key is present if some entry carries
//! it, and it is bound to what that entry holds.

use vstd::prelude::*;

verus! {

/// Some entry of `s` carries the key `k`.
pub open spec fn has_key<V>(s: Seq<(String, V)>, k: Seq<char>) -> bool {
    exists|i: int| 0 <= i < s.len() && (#[trigger] s[i]).0@ == k
}

/// The place of an entry of `s` that carries the key `k`, if there is one.
pub open spec fn index_of<V>(s: Seq<(String, V)>, k: Seq<char>) -> int {
    choose|i: int| 0 <= i < s.len() && (#[trigger] s[i]).0@ == k
}

/// What `s` binds the key `k` to, if it is present.
pub open spec fn value_of<V>(s: Seq<(String, V)>, k: Seq<char>) -> V {
    s[index_of(s, k)].1
}

/// No two entries of `s` carry the same key.
pub open spec fn distinct_keys<V>(s: Seq<(String, V)>) -> bool {
    forall|i: int, j: int|
        0 <= i < j < s.len() ==> (#[trigger] s[i]).0@ != (#[trigger] s[j]).0@
}

/// In a list with distinct keys, the entry at `i` is the one found for its key.
pub proof fn lemma_entry_found<V>(s: Seq<(String, V)>, i: int)
    requires
        distinct_keys(s),
        0 <= i < s.len(),
    ensures
        has_key(s, s[i].0@),
        index_of(s, s[i].0@) == i,
        value_of(s, s[i].0@) == s[i].1,
{
    let k = s[i].0@;
    assert(has_key(s, k));
    let j = index_of(s, k);
    assert(0 <= j < s.len() && s[j].0@ == k);
    if j != i {
        if j < i {
            assert(s[j].0@ != s[i].0@);
        } else {
            assert(s[i].0@ != s[j].0@);
        }
    }
}

/// Looks for the entry that carries `key`.
pub(crate) fn find<V>(entries: &Vec<(String, V)>, key: &String) -> (r: Option<usize>)
    ensures
        match r {
            Some(i) => i < entries.len() && entries@[i as int].0@ == key@,
            None => !has_key(entries@, key@),
        },
{
    let mut i: usize = 0;
    while i < entries.len()
        invariant
            i <= entries.len(),
            forall|j: int| 0 <= j < i ==> (#[trigger] entries@[j]).0@ != key@,
        decreases entries.len() - i,
    {
        if entries[i].0 == *key {
            return Some(i);
        }
        i += 1;
    }
    None
}

/// Binds `key` to `value`: the entry that carried `key` is replaced, or a
/// new entry is added. Every other binding stays as it was.
pub(crate) fn put<V>(entries: &mut Vec<(String, V)>, key: String, value: V)
    requires
        distinct_keys(old(entries)@),
    ensures
        distinct_keys(final(entries)@),
        has_key(final(entries)@, key@),
        value_of(final(entries)@, key@) == value,
        forall|k: Seq<char>|
            k != key@ ==> has_key(final(entries)@, k) == has_key(old(entries)@, k),
        forall|k: Seq<char>|
            k != key@ && has_key(old(entries)@, k) ==> value_of(final(entries)@, k) == value_of(
                old(entries)@,
                k,
            ),
{
    let ghost before = entries@;
    let ghost key_view = key@;
    let place: usize = match find(entries, &key) {
        Some(i) => {
            entries.set(i, (key, value));
            i
        },
        None => {
            entries.push((key, value));
            entries.len() - 1
        },
    };
    proof {
        let after = entries@;
        assert(after[place as int].0@ == key_view);
        assert(after[place as int].1 == value);
        assert forall|j: int| 0 <= j < after.len() && j != place implies #[trigger] after[j]
            == before[j] && before[j].0@ != key_view by {
            if place < before.len() {
                lemma_entry_found(before, place as int);
                if j < place {
                    assert(before[j].0@ != before[place as int].0@);
                } else {
                    assert(before[place as int].0@ != before[j].0@);
                }
            }
        }
        assert(distinct_keys(after)) by {
            assert forall|i: int, j: int| 0 <= i < j < after.len() implies (#[trigger] after[i]).0@
                != (#[trigger] after[j]).0@ by {
                if i != place && j != place {
                    assert(before[i].0@ != before[j].0@);
                }
            }
        }
        lemma_entry_found(after, place as int);
        assert forall|k: Seq<char>| k != key_view implies has_key(after, k) == has_key(
            before,
            k,
        ) by {
            if has_key(after, k) {
                let j = index_of(after, k);
                assert(before[j].0@ == k);
            }
            if has_key(before, k) {
                let j = index_of(before, k);
                assert(after[j].0@ == k);
            }
        }
        assert forall|k: Seq<char>| k != key_view && has_key(before, k) implies value_of(after, k)
            == value_of(before, k) by {
            let j = index_of(before, k);
            assert(after[j] == before[j]);
            lemma_entry_found(before, j);
            lemma_entry_found(after, j);
        }
    }
}

/// Two lists that carry the same keys at the same places stand for maps
/// with the same keys, and find each key at the same place.
pub proof fn lemma_same_keys<V, W>(a: Seq<(String, V)>, b: Seq<(String, W)>)
    requires
        a.len() == b.len(),
        forall|i: int| 0 <= i < a.len() ==> (#[trigger] a[i]).0@ == b[i].0@,
        distinct_keys(a),
    ensures
        distinct_keys(b),
        forall|k: Seq<char>| has_key(a, k) == has_key(b, k),
        forall|k: Seq<char>| has_key(a, k) ==> index_of(a, k) == index_of(b, k),
{
    assert forall|i: int, j: int| 0 <= i < j < b.len() implies (#[trigger] b[i]).0@ != (
    #[trigger] b[j]).0@ by {
        assert(a[i].0@ != a[j].0@);
    }
    assert forall|k: Seq<char>| has_key(a, k) == has_key(b, k) by {
        if has_key(a, k) {
            let i = index_of(a, k);
            assert(a[i].0@ == b[i].0@);
        }
        if has_key(b, k) {
            let i = index_of(b, k);
            assert(a[i].0@ == b[i].0@);
        }
    }
    assert forall|k: Seq<char>| has_key(a, k) implies index_of(a, k) == index_of(b, k) by {
        let i = index_of(a, k);
        assert(a[i].0@ == b[i].0@);
        lemma_entry_found(b, i);
    }
}

/// Tells whether every key of `a` is a key of `b`.
pub(crate) fn keys_included<V, W>(a: &Vec<(String, V)>, b: &Vec<(String, W)>) -> (r: bool)
    ensures
        r == forall|k: Seq<char>| has_key(a@, k) ==> has_key(b@, k),
{
    let mut i: usize = 0;
    while i < a.len()
        invariant
            i <= a.len(),
            forall|j: int| 0 <= j < i ==> has_key(b@, (#[trigger] a@[j]).0@),
        decreases a.len() - i,
    {
        if find(b, &a[i].0).is_none() {
            assert(has_key(a@, a@[i as int].0@));
            return false;
        }
        i += 1;
    }
    true
}

} // verus!
