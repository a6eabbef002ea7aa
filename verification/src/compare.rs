//! Comparing two sequences of transactions by their ids.
use std::collections::HashMap;
use vstd::prelude::*;

use crate::Transaction;

verus! {

broadcast use vstd::std_specs::hash::group_hash_axioms;

/// The index of the last transaction of `s` with id `id`, if any.
pub open spec fn last_with_id(s: Seq<Transaction>, id: u64) -> Option<int>
    decreases s.len(),
{
    if s.len() == 0 {
        None
    } else if s.last().tx_id == id {
        Some(s.len() - 1)
    } else {
        last_with_id(s.drop_last(), id)
    }
}

/// The last transaction of `s` with id `id`, if any.
pub open spec fn last_of(s: Seq<Transaction>, id: u64) -> Option<Transaction> {
    match last_with_id(s, id) {
        Some(i) => Some(s[i]),
        None => None,
    }
}

/// What comparing reports of id `id`: the last transaction with that id on each
/// side, unless neither side has one or both sides have equal ones.
pub open spec fn diff_of(left: Seq<Transaction>, right: Seq<Transaction>, id: u64) -> Option<
    (Option<Transaction>, Option<Transaction>),
> {
    let l = last_of(left, id);
    let r = last_of(right, id);
    match (l, r) {
        (None, None) => None,
        (Some(a), Some(b)) => if a@ == b@ {
            None
        } else {
            Some((l, r))
        },
        _ => Some((l, r)),
    }
}

/// Whether the last transaction of `s` with id `id` stands before index `bound`.
pub open spec fn last_before(s: Seq<Transaction>, id: u64, bound: int) -> bool {
    match last_with_id(s, id) {
        Some(ix) => 0 <= ix < bound,
        None => false,
    }
}

/// A reported pair by value.
pub open spec fn pair_value(p: (Option<&Transaction>, Option<&Transaction>)) -> (
    Option<Transaction>,
    Option<Transaction>,
) {
    (
        match p.0 {
            Some(t) => Some(*t),
            None => None,
        },
        match p.1 {
            Some(t) => Some(*t),
            None => None,
        },
    )
}

/// The id a reported pair is about.
pub open spec fn pair_id(p: (Option<&Transaction>, Option<&Transaction>)) -> u64 {
    match p.0 {
        Some(t) => t.tx_id,
        None => match p.1 {
            Some(t) => t.tx_id,
            None => 0,
        },
    }
}

/// A reported pair of transactions, by value.
pub type Pair = (Option<Transaction>, Option<Transaction>);

/// The id a pair of transactions is about.
pub open spec fn report_id(p: Pair) -> u64 {
    match p.0 {
        Some(t) => t.tx_id,
        None => match p.1 {
            Some(t) => t.tx_id,
            None => 0,
        },
    }
}

/// A report of references, by value.
pub open spec fn report_values(d: Seq<(Option<&Transaction>, Option<&Transaction>)>) -> Seq<Pair> {
    d.map_values(|p: (Option<&Transaction>, Option<&Transaction>)| pair_value(p))
}

/// Whether `d` is what comparing `left` with `right` reports: each pair is what
/// its id gives, no id twice, and every id that gives a pair is there.
pub open spec fn is_diff_report(left: Seq<Transaction>, right: Seq<Transaction>, d: Seq<Pair>) -> bool {
    &&& forall|k: int| 0 <= k < d.len() ==> diff_of(left, right, report_id(#[trigger] d[k])) == Some(d[k])
    &&& forall|k1: int, k2: int|
        0 <= k1 < k2 < d.len() ==> report_id(#[trigger] d[k1]) != report_id(#[trigger] d[k2])
    &&& forall|id: u64|
        #[trigger] diff_of(left, right, id) is Some ==> exists|k: int|
            0 <= k < d.len() && report_id(#[trigger] d[k]) == id
}

/// A pair with its sides swapped.
pub open spec fn swap_pair(p: Pair) -> Pair {
    (p.1, p.0)
}

/// A report with the sides of each pair swapped.
pub open spec fn swapped(d: Seq<Pair>) -> Seq<Pair> {
    d.map_values(|p: Pair| swap_pair(p))
}

proof fn lemma_last_with_id(s: Seq<Transaction>, id: u64)
    ensures
        match last_with_id(s, id) {
            Some(i) => 0 <= i < s.len() && s[i].tx_id == id && forall|j: int|
                i < j < s.len() ==> s[j].tx_id != id,
            None => forall|j: int| 0 <= j < s.len() ==> s[j].tx_id != id,
        },
    decreases s.len(),
{
    if s.len() > 0 {
        let d = s.drop_last();
        lemma_last_with_id(d, id);
        assert(forall|j: int| 0 <= j < d.len() ==> d[j] == s[j]);
    }
}

proof fn lemma_last_with_id_take(s: Seq<Transaction>, i: int, id: u64)
    requires
        0 <= i < s.len(),
    ensures
        last_with_id(s.take(i + 1), id) == if s[i].tx_id == id {
            Some(i)
        } else {
            last_with_id(s.take(i), id)
        },
{
    assert(s.take(i + 1).drop_last() =~= s.take(i));
}

/// A map from each id of `s` to the index of its last transaction.
fn last_indices(s: &[Transaction]) -> (m: HashMap<u64, usize>)
    ensures
        forall|id: u64|
            #![trigger m@.contains_key(id)]
            (m@.contains_key(id) <==> last_with_id(s@, id) is Some) && (m@.contains_key(id)
                ==> last_with_id(s@, id) == Some(m@[id] as int)),
{
    let mut m: HashMap<u64, usize> = HashMap::new();
    let mut i: usize = 0;
    while i < s.len()
        invariant
            i <= s@.len(),
            forall|id: u64|
                #![trigger m@.contains_key(id)]
                (m@.contains_key(id) <==> last_with_id(s@.take(i as int), id) is Some) && (
                m@.contains_key(id) ==> last_with_id(s@.take(i as int), id) == Some(m@[id] as int)),
        decreases s.len() - i,
    {
        m.insert(s[i].tx_id, i);
        proof {
            assert forall|id: u64| #![trigger m@.contains_key(id)]
                (m@.contains_key(id) <==> last_with_id(s@.take(i + 1), id) is Some) && (
                m@.contains_key(id) ==> last_with_id(s@.take(i + 1), id) == Some(m@[id] as int)) by {
                lemma_last_with_id_take(s@, i as int, id);
            }
        }
        i = i + 1;
    }
    assert(s@.take(i as int) =~= s@);
    m
}

/// Whether two transactions have equal fields.
pub fn same_transaction(a: &Transaction, b: &Transaction) -> (r: bool)
    ensures
        r == (a@ == b@),
{
    a.tx_id == b.tx_id && a.tx_type == b.tx_type && a.from_user_id == b.from_user_id
        && a.to_user_id == b.to_user_id && a.amount == b.amount && a.timestamp == b.timestamp
        && a.status == b.status && a.description == b.description
}

/// The differences between two sequences of transactions, matched by id: for
/// each id, the last transaction with it on each side, where one side lacks it
/// or the two differ. Each id is reported once; the order of the report is not
/// part of what it says.
pub fn compare<'a>(left: &'a [Transaction], right: &'a [Transaction]) -> (diff: Vec<
    (Option<&'a Transaction>, Option<&'a Transaction>),
>)
    ensures
        forall|k: int|
            0 <= k < diff@.len() ==> diff_of(left@, right@, pair_id(#[trigger] diff@[k])) == Some(
                pair_value(diff@[k]),
            ),
        forall|k1: int, k2: int|
            0 <= k1 < k2 < diff@.len() ==> pair_id(#[trigger] diff@[k1]) != pair_id(
                #[trigger] diff@[k2],
            ),
        forall|id: u64|
            #[trigger] diff_of(left@, right@, id) is Some ==> exists|k: int|
                0 <= k < diff@.len() && pair_id(#[trigger] diff@[k]) == id,
        is_diff_report(left@, right@, report_values(diff@)),
{
    let lm = last_indices(left);
    let rm = last_indices(right);
    let mut diff: Vec<(Option<&'a Transaction>, Option<&'a Transaction>)> = Vec::new();
    let mut i: usize = 0;
    while i < left.len()
        invariant
            i <= left@.len(),
            forall|id: u64|
                #![trigger lm@.contains_key(id)]
                (lm@.contains_key(id) <==> last_with_id(left@, id) is Some) && (lm@.contains_key(id)
                    ==> last_with_id(left@, id) == Some(lm@[id] as int)),
            forall|id: u64|
                #![trigger rm@.contains_key(id)]
                (rm@.contains_key(id) <==> last_with_id(right@, id) is Some) && (
                rm@.contains_key(id) ==> last_with_id(right@, id) == Some(rm@[id] as int)),
            forall|k: int|
                0 <= k < diff@.len() ==> diff_of(left@, right@, pair_id(#[trigger] diff@[k]))
                    == Some(pair_value(diff@[k])),
            forall|k: int|
                0 <= k < diff@.len() ==> last_before(left@, pair_id(#[trigger] diff@[k]), i as int),
            forall|k1: int, k2: int|
                0 <= k1 < k2 < diff@.len() ==> pair_id(#[trigger] diff@[k1]) != pair_id(
                    #[trigger] diff@[k2],
                ),
            forall|id: u64|
                #![trigger diff_of(left@, right@, id)]
                diff_of(left@, right@, id) is Some && last_before(left@, id, i as int) ==> exists|
                    k: int,
                | 0 <= k < diff@.len() && pair_id(#[trigger] diff@[k]) == id,
        decreases left.len() - i,
    {
        let ghost before = diff@;
        let id = left[i].tx_id;
        proof {
            lemma_last_with_id(left@, id);
            lemma_last_with_id(right@, id);
            assert(lm@.contains_key(id));
        }
        let li = *lm.get(&id).unwrap();
        if li == i {
            match rm.get(&id) {
                None => {
                    diff.push((Some(&left[i]), None));
                },
                Some(j) => {
                    let j = *j;
                    if !same_transaction(&left[i], &right[j]) {
                        diff.push((Some(&left[i]), Some(&right[j])));
                    }
                },
            }
        }
        proof {
            assert forall|k: int| 0 <= k < before.len() implies diff@[k] == before[k] by {}
            if diff@.len() > before.len() {
                assert(pair_id(diff@[before.len() as int]) == id);
                assert forall|k: int| 0 <= k < before.len() implies pair_id(#[trigger] diff@[k]) != id by {
                    assert(last_before(left@, pair_id(before[k]), i as int));
                }
            }
            assert forall|id2: u64|
                #![trigger diff_of(left@, right@, id2)]
                diff_of(left@, right@, id2) is Some && last_before(left@, id2, i + 1) implies exists|k: int|
                    0 <= k < diff@.len() && pair_id(#[trigger] diff@[k]) == id2 by {
                lemma_last_with_id(left@, id2);
                if last_before(left@, id2, i as int) {
                    let k = choose|k: int| 0 <= k < before.len() && pair_id(#[trigger] before[k]) == id2;
                    assert(diff@[k] == before[k]);
                } else {
                    assert(id2 == id);
                    assert(lm@.contains_key(id2));
                    assert(pair_id(diff@[before.len() as int]) == id2);
                }
            }
        }
        i = i + 1;
    }
    proof {
        assert forall|id: u64|
            #![trigger diff_of(left@, right@, id)]
            diff_of(left@, right@, id) is Some && (last_with_id(left@, id) is Some || last_before(
                right@,
                id,
                0,
            )) implies exists|k: int| 0 <= k < diff@.len() && pair_id(#[trigger] diff@[k]) == id by {
            lemma_last_with_id(left@, id);
            assert(last_before(left@, id, i as int));
        }
    }
    let mut j: usize = 0;
    while j < right.len()
        invariant
            j <= right@.len(),
            forall|id: u64|
                #![trigger lm@.contains_key(id)]
                (lm@.contains_key(id) <==> last_with_id(left@, id) is Some) && (lm@.contains_key(id)
                    ==> last_with_id(left@, id) == Some(lm@[id] as int)),
            forall|id: u64|
                #![trigger rm@.contains_key(id)]
                (rm@.contains_key(id) <==> last_with_id(right@, id) is Some) && (
                rm@.contains_key(id) ==> last_with_id(right@, id) == Some(rm@[id] as int)),
            forall|k: int|
                0 <= k < diff@.len() ==> diff_of(left@, right@, pair_id(#[trigger] diff@[k]))
                    == Some(pair_value(diff@[k])),
            forall|k: int|
                0 <= k < diff@.len() ==> last_with_id(left@, pair_id(#[trigger] diff@[k])) is Some
                    || last_before(right@, pair_id(diff@[k]), j as int),
            forall|k1: int, k2: int|
                0 <= k1 < k2 < diff@.len() ==> pair_id(#[trigger] diff@[k1]) != pair_id(
                    #[trigger] diff@[k2],
                ),
            forall|id: u64|
                #![trigger diff_of(left@, right@, id)]
                diff_of(left@, right@, id) is Some && (last_with_id(left@, id) is Some || last_before(
                    right@,
                    id,
                    j as int,
                )) ==> exists|k: int| 0 <= k < diff@.len() && pair_id(#[trigger] diff@[k]) == id,
        decreases right.len() - j,
    {
        let ghost before = diff@;
        let id = right[j].tx_id;
        proof {
            lemma_last_with_id(right@, id);
            lemma_last_with_id(left@, id);
            assert(rm@.contains_key(id));
        }
        let rj = *rm.get(&id).unwrap();
        if rj == j && !lm.contains_key(&id) {
            diff.push((None, Some(&right[j])));
        }
        proof {
            assert forall|k: int| 0 <= k < before.len() implies diff@[k] == before[k] by {}
            if diff@.len() > before.len() {
                assert(pair_id(diff@[before.len() as int]) == id);
                assert forall|k: int| 0 <= k < before.len() implies pair_id(#[trigger] diff@[k]) != id by {
                    assert(last_with_id(left@, pair_id(before[k])) is Some || last_before(right@, pair_id(before[k]), j as int));
                }
            }
            assert forall|id2: u64|
                #![trigger diff_of(left@, right@, id2)]
                diff_of(left@, right@, id2) is Some && (last_with_id(left@, id2) is Some || last_before(
                    right@,
                    id2,
                    j + 1,
                )) implies exists|k: int| 0 <= k < diff@.len() && pair_id(#[trigger] diff@[k]) == id2 by {
                lemma_last_with_id(right@, id2);
                if last_with_id(left@, id2) is Some || last_before(right@, id2, j as int) {
                    let k = choose|k: int| 0 <= k < before.len() && pair_id(#[trigger] before[k]) == id2;
                    assert(diff@[k] == before[k]);
                } else {
                    assert(id2 == id);
                    assert(rm@.contains_key(id2));
                    assert(!lm@.contains_key(id2));
                    assert(pair_id(diff@[before.len() as int]) == id2);
                }
            }
        }
        j = j + 1;
    }
    proof {
        assert forall|id: u64| #[trigger] diff_of(left@, right@, id) is Some implies exists|k: int|
            0 <= k < diff@.len() && pair_id(#[trigger] diff@[k]) == id by {
            lemma_last_with_id(right@, id);
        }
        let d = report_values(diff@);
        assert forall|k: int| 0 <= k < d.len() implies #[trigger] d[k] == pair_value(diff@[k])
            && report_id(d[k]) == pair_id(diff@[k]) by {}
        assert forall|id: u64| #[trigger] diff_of(left@, right@, id) is Some implies exists|k: int|
            0 <= k < d.len() && report_id(#[trigger] d[k]) == id by {
            let k = choose|k: int| 0 <= k < diff@.len() && pair_id(#[trigger] diff@[k]) == id;
            assert(d[k] == pair_value(diff@[k]));
        }
    }
    diff
}

/// A sequence compared with itself has no differences.
pub proof fn lemma_compare_identical(s: Seq<Transaction>)
    ensures
        forall|id: u64| #[trigger] diff_of(s, s, id) is None,
{
}

/// An id is reported when comparing one way exactly when it is reported the other way.
pub proof fn lemma_compare_symmetric(left: Seq<Transaction>, right: Seq<Transaction>)
    ensures
        forall|id: u64|
            #[trigger] diff_of(left, right, id) is Some <==> diff_of(right, left, id) is Some,
{
}


/// Comparing the other way round reports, for each id, the same pair with its
/// sides swapped.
proof fn lemma_diff_of_swap(left: Seq<Transaction>, right: Seq<Transaction>, id: u64)
    ensures
        diff_of(right, left, id) == match diff_of(left, right, id) {
            Some(p) => Some(swap_pair(p)),
            None => None,
        },
        diff_of(left, right, id) matches Some(p) ==> report_id(p) == id,
{
    lemma_last_with_id(left, id);
    lemma_last_with_id(right, id);
}

/// Comparing `right` with `left` reports what comparing `left` with `right`
/// reports, each pair with its sides swapped, in some order: the two reports
/// hold the same pairs, as many times each.
pub proof fn lemma_compare_swapped(
    left: Seq<Transaction>,
    right: Seq<Transaction>,
    d1: Seq<Pair>,
    d2: Seq<Pair>,
)
    requires
        is_diff_report(left, right, d1),
        is_diff_report(right, left, d2),
    ensures
        d2.to_multiset() == swapped(d1).to_multiset(),
        d2.len() == d1.len(),
{
    let s1 = swapped(d1);
    assert forall|k: int| 0 <= k < d1.len() implies #[trigger] s1[k] == swap_pair(d1[k])
        && diff_of(right, left, report_id(d1[k])) == Some(s1[k]) && report_id(s1[k]) == report_id(
        d1[k],
    ) by {
        lemma_diff_of_swap(left, right, report_id(d1[k]));
        lemma_diff_of_swap(right, left, report_id(d1[k]));
    }
    assert forall|k: int| 0 <= k < d2.len() implies diff_of(left, right, report_id(#[trigger] d2[k]))
        == Some(swap_pair(d2[k])) && report_id(swap_pair(d2[k])) == report_id(d2[k]) by {
        lemma_diff_of_swap(right, left, report_id(d2[k]));
        lemma_diff_of_swap(left, right, report_id(d2[k]));
    }
    assert forall|x: Pair| s1.contains(x) <==> d2.contains(x) by {
        if s1.contains(x) {
            let k = choose|k: int| 0 <= k < s1.len() && s1[k] == x;
            let id = report_id(d1[k]);
            let k2 = choose|k2: int| 0 <= k2 < d2.len() && report_id(#[trigger] d2[k2]) == id;
            assert(d2[k2] == x);
        }
        if d2.contains(x) {
            let k2 = choose|k2: int| 0 <= k2 < d2.len() && d2[k2] == x;
            let id = report_id(d2[k2]);
            let k = choose|k: int| 0 <= k < d1.len() && report_id(#[trigger] d1[k]) == id;
            assert(d1[k] == swap_pair(x));
            assert(s1[k] == x);
        }
    }
    assert(d2.no_duplicates()) by {
        assert forall|i: int, j: int| 0 <= i < d2.len() && 0 <= j < d2.len() && i != j implies d2[i]
            != d2[j] by {
            if i < j {
                assert(report_id(d2[i]) != report_id(d2[j]));
            } else {
                assert(report_id(d2[j]) != report_id(d2[i]));
            }
        }
    }
    assert(s1.no_duplicates()) by {
        assert forall|i: int, j: int| 0 <= i < s1.len() && 0 <= j < s1.len() && i != j implies s1[i]
            != s1[j] by {
            if i < j {
                assert(report_id(d1[i]) != report_id(d1[j]));
            } else {
                assert(report_id(d1[j]) != report_id(d1[i]));
            }
        }
    }
    d2.lemma_multiset_has_no_duplicates();
    s1.lemma_multiset_has_no_duplicates();
    d2.to_multiset_ensures();
    s1.to_multiset_ensures();
    assert(d2.to_multiset() =~= s1.to_multiset());
}

} // verus!
