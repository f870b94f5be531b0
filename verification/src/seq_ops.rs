//! Sequence-level descriptions of the list operations.
//!
//! All three linked-list variants state their contracts with the spec
//! functions here: `insert_after_first` and `remove_first` describe
//! insertion after, and removal of, the first occurrence of a value.
//! The lemmas relate those recursive definitions to positional updates,
//! which is the form the contiguous implementations work in.

use vstd::prelude::*;

verus! {

/// The sequence `s` with `data` inserted right after the first occurrence
/// of `prev`; `s` unchanged when `prev` does not occur.
pub open spec fn insert_after_first(s: Seq<i64>, prev: i64, data: i64) -> Seq<i64>
    decreases s.len(),
{
    if s.len() == 0 {
        s
    } else if s[0] == prev {
        seq![s[0], data] + s.drop_first()
    } else {
        seq![s[0]] + insert_after_first(s.drop_first(), prev, data)
    }
}

/// The sequence `s` with the first occurrence of `data` removed;
/// `s` unchanged when `data` does not occur.
pub open spec fn remove_first(s: Seq<i64>, data: i64) -> Seq<i64>
    decreases s.len(),
{
    if s.len() == 0 {
        s
    } else if s[0] == data {
        s.drop_first()
    } else {
        seq![s[0]] + remove_first(s.drop_first(), data)
    }
}

/// When `prev` first occurs at position `i`, inserting after it is a
/// positional insertion at `i + 1`.
pub proof fn lemma_insert_after_first_at(s: Seq<i64>, prev: i64, data: i64, i: int)
    requires
        0 <= i < s.len(),
        s[i] == prev,
        forall|j: int| 0 <= j < i ==> s[j] != prev,
    ensures
        insert_after_first(s, prev, data) == s.insert(i + 1, data),
    decreases i,
{
    if i == 0 {
        assert(insert_after_first(s, prev, data) =~= s.insert(1, data));
    } else {
        let rest = s.drop_first();
        assert(forall|j: int| 0 <= j < i - 1 ==> rest[j] != prev);
        lemma_insert_after_first_at(rest, prev, data, i - 1);
        assert(insert_after_first(s, prev, data) =~= s.insert(i + 1, data));
    }
}

/// Inserting after a value that does not occur leaves the sequence unchanged.
pub proof fn lemma_insert_after_first_absent(s: Seq<i64>, prev: i64, data: i64)
    requires
        !s.contains(prev),
    ensures
        insert_after_first(s, prev, data) == s,
    decreases s.len(),
{
    if s.len() > 0 {
        assert(s[0] != prev);
        assert(!s.drop_first().contains(prev)) by {
            if s.drop_first().contains(prev) {
                let j = choose|j: int| 0 <= j < s.drop_first().len() && s.drop_first()[j] == prev;
                assert(s[j + 1] == prev);
            }
        }
        lemma_insert_after_first_absent(s.drop_first(), prev, data);
        assert(insert_after_first(s, prev, data) =~= s);
    }
}

/// When `data` first occurs at position `i`, removing it is a positional
/// removal at `i`.
pub proof fn lemma_remove_first_at(s: Seq<i64>, data: i64, i: int)
    requires
        0 <= i < s.len(),
        s[i] == data,
        forall|j: int| 0 <= j < i ==> s[j] != data,
    ensures
        remove_first(s, data) == s.remove(i),
    decreases i,
{
    if i == 0 {
        assert(remove_first(s, data) =~= s.remove(0));
    } else {
        let rest = s.drop_first();
        assert(forall|j: int| 0 <= j < i - 1 ==> rest[j] != data);
        lemma_remove_first_at(rest, data, i - 1);
        assert(remove_first(s, data) =~= s.remove(i));
    }
}

/// Removing a value that does not occur leaves the sequence unchanged.
pub proof fn lemma_remove_first_absent(s: Seq<i64>, data: i64)
    requires
        !s.contains(data),
    ensures
        remove_first(s, data) == s,
    decreases s.len(),
{
    if s.len() > 0 {
        assert(s[0] != data);
        assert(!s.drop_first().contains(data)) by {
            if s.drop_first().contains(data) {
                let j = choose|j: int| 0 <= j < s.drop_first().len() && s.drop_first()[j] == data;
                assert(s[j + 1] == data);
            }
        }
        lemma_remove_first_absent(s.drop_first(), data);
        assert(remove_first(s, data) =~= s);
    }
}

/// A copy of `v` with the elements in reverse order.
pub fn reversed_vec(v: &Vec<i64>) -> (r: Vec<i64>)
    ensures
        r@ == v@.reverse(),
{
    let mut out: Vec<i64> = Vec::new();
    let mut i: usize = 0;
    while i < v.len()
        invariant
            i <= v.len(),
            out@.len() == i,
            forall|j: int| 0 <= j < i ==> out@[j] == v@[v@.len() - 1 - j],
        decreases v.len() - i,
    {
        out.push(v[v.len() - 1 - i]);
        i = i + 1;
    }
    assert(out@ =~= v@.reverse());
    out
}

/// The first position holding `data`, if any.
pub fn find_first(v: &Vec<i64>, data: i64) -> (r: Option<usize>)
    ensures
        v@.len() <= usize::MAX,
        match r {
            Some(i) => i < v@.len() && v@[i as int] == data && (forall|j: int|
                0 <= j < i ==> v@[j] != data),
            None => !v@.contains(data),
        },
{
    let mut i: usize = 0;
    while i < v.len()
        invariant
            i <= v.len(),
            forall|j: int| 0 <= j < i ==> v@[j] != data,
        decreases v.len() - i,
    {
        if v[i] == data {
            return Some(i);
        }
        i = i + 1;
    }
    assert(!v@.contains(data)) by {
        if v@.contains(data) {
            let j = choose|j: int| 0 <= j < v@.len() && v@[j] == data;
        }
    }
    None
}

/// A copy of `v`.
pub fn copied_vec(v: &Vec<i64>) -> (r: Vec<i64>)
    ensures
        r@ == v@,
{
    let mut out: Vec<i64> = Vec::new();
    let mut i: usize = 0;
    while i < v.len()
        invariant
            i <= v.len(),
            out@ == v@.take(i as int),
        decreases v.len() - i,
    {
        out.push(v[i]);
        i = i + 1;
        assert(out@ =~= v@.take(i as int));
    }
    assert(v@.take(v@.len() as int) =~= v@);
    out
}

} // verus!
