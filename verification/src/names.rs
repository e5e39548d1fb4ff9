//! Sorted lists of names: the form in which activated features are kept.

use vstd::prelude::*;
use crate::text::lemma_name_lt_asymmetric;
use crate::text::lemma_name_lt_irreflexive;
use crate::text::lemma_name_lt_total;
use crate::text::lemma_name_lt_transitive;
use crate::text::name_equal;
use crate::text::name_less;
use crate::text::name_lt;
use crate::text::names_of;
use crate::text::sorted_names;

verus! {

/// Two sorted lists that hold the same names are the same list.
pub proof fn lemma_sorted_names_unique(s1: Seq<Seq<char>>, s2: Seq<Seq<char>>)
    requires
        sorted_names(s1),
        sorted_names(s2),
        forall|x: Seq<char>| s1.contains(x) <==> s2.contains(x),
    ensures
        s1 == s2,
    decreases s1.len(),
{
    if s1.len() == 0 {
        if s2.len() > 0 {
            assert(s2.contains(s2[0]));
        }
        assert(s1 =~= s2);
    } else {
        assert(s1.contains(s1[0]));
        assert(s2.contains(s1[0]));
        let j = choose|j: int| 0 <= j < s2.len() && s2[j] == s1[0];
        assert(s2.contains(s2[0]));
        assert(s1.contains(s2[0]));
        let i = choose|i: int| 0 <= i < s1.len() && s1[i] == s2[0];
        if j > 0 {
            // s2[0] < s2[j] == s1[0] <= s1[i] == s2[0]
            if i > 0 {
                lemma_name_lt_transitive(s2[0], s2[j], s1[i]);
            }
            lemma_name_lt_irreflexive(s2[0]);
        }
        assert(s1[0] == s2[0]);
        let t1 = s1.drop_first();
        let t2 = s2.drop_first();
        assert forall|x: Seq<char>| t1.contains(x) <==> t2.contains(x) by {
            if t1.contains(x) {
                let a = choose|a: int| 0 <= a < t1.len() && t1[a] == x;
                assert(s1[a + 1] == x);
                assert(s1.contains(x));
                lemma_name_lt_asymmetric(s1[0], s1[a + 1]);
                let b = choose|b: int| 0 <= b < s2.len() && s2[b] == x;
                assert(t2[b - 1] == x);
            }
            if t2.contains(x) {
                let a = choose|a: int| 0 <= a < t2.len() && t2[a] == x;
                assert(s2[a + 1] == x);
                assert(s2.contains(x));
                lemma_name_lt_asymmetric(s2[0], s2[a + 1]);
                let b = choose|b: int| 0 <= b < s1.len() && s1[b] == x;
                assert(t1[b - 1] == x);
            }
        }
        assert(sorted_names(t1)) by {
            assert forall|a: int, b: int| 0 <= a < b < t1.len() implies name_lt(
                #[trigger] t1[a],
                #[trigger] t1[b],
            ) by {
                assert(name_lt(s1[a + 1], s1[b + 1]));
            }
        }
        assert(sorted_names(t2)) by {
            assert forall|a: int, b: int| 0 <= a < b < t2.len() implies name_lt(
                #[trigger] t2[a],
                #[trigger] t2[b],
            ) by {
                assert(name_lt(s2[a + 1], s2[b + 1]));
            }
        }
        lemma_sorted_names_unique(t1, t2);
        assert(s1 =~= seq![s1[0]] + t1);
        assert(s2 =~= seq![s2[0]] + t2);
    }
}

/// Copies a list of names.
pub fn clone_names(list: &Vec<String>) -> (r: Vec<String>)
    ensures
        names_of(r@) == names_of(list@),
{
    let mut out: Vec<String> = Vec::new();
    let mut i: usize = 0;
    while i < list.len()
        invariant
            i <= list@.len(),
            out@.len() == i,
            forall|j: int| 0 <= j < i ==> out@[j]@ == list@[j]@,
        decreases list@.len() - i,
    {
        out.push(list[i].clone());
        i += 1;
    }
    assert(names_of(out@) =~= names_of(list@));
    out
}

/// Adds `name` to a list: the list then holds what it held and `name`. A
/// sorted list stays sorted, and a name that it holds already is not added
/// again.
pub fn insert_name(list: &mut Vec<String>, name: &str)
    ensures
        sorted_names(names_of(old(list)@)) ==> sorted_names(names_of(final(list)@)),
        forall|x: Seq<char>| #[trigger]
            names_of(final(list)@).contains(x) <==> (names_of(old(list)@).contains(x) || x
                == name@),
{
    let ghost before = names_of(list@);
    let mut pos: usize = 0;
    while pos < list.len() && name_less(list[pos].as_str(), name)
        invariant
            pos <= list@.len(),
            forall|j: int| 0 <= j < pos ==> name_lt(#[trigger] list@[j]@, name@),
        decreases list@.len() - pos,
    {
        pos += 1;
    }
    if pos < list.len() && name_equal(list[pos].as_str(), name) {
        assert(before[pos as int] == name@);
        assert(before.contains(name@));
        return ;
    }
    let owned = name.to_owned();
    list.insert(pos, owned);
    proof {
        let after = names_of(list@);
        assert(after =~= before.insert(pos as int, name@));
        if pos < before.len() {
            lemma_name_lt_total(before[pos as int], name@);
        }
        assert forall|i: int, j: int| sorted_names(before) && 0 <= i < j < after.len() implies name_lt(
            #[trigger] after[i],
            #[trigger] after[j],
        ) by {
            if j < pos {
                assert(name_lt(before[i], before[j]));
            } else if j == pos {
                assert(after[i] == before[i]);
            } else if i == pos {
                assert(after[j] == before[j - 1]);
                if j - 1 > pos {
                    assert(name_lt(before[pos as int], before[j - 1]));
                    lemma_name_lt_transitive(name@, before[pos as int], before[j - 1]);
                }
            } else if i < pos {
                assert(after[j] == before[j - 1]);
                if j - 1 == i {
                    lemma_name_lt_transitive(before[i], name@, before[j - 1]);
                } else {
                    assert(name_lt(before[i], before[j - 1]));
                }
            } else {
                assert(name_lt(before[i - 1], before[j - 1]));
            }
        }
        assert forall|x: Seq<char>| #[trigger]
            after.contains(x) <==> (before.contains(x) || x == name@) by {
            if after.contains(x) {
                let a = choose|a: int| 0 <= a < after.len() && after[a] == x;
                if a < pos {
                    assert(before[a] == x);
                } else if a > pos {
                    assert(before[a - 1] == x);
                }
            }
            if before.contains(x) {
                let a = choose|a: int| 0 <= a < before.len() && before[a] == x;
                if a < pos {
                    assert(after[a] == x);
                } else {
                    assert(after[a + 1] == x);
                }
            }
            if x == name@ {
                assert(after[pos as int] == x);
            }
        }
    }
}

/// Adds every name of `more` to a list: the list then holds the union of
/// the two. A sorted list stays sorted and without repeats. `more` may be in
/// any order.
pub fn merge_names(list: &mut Vec<String>, more: &Vec<String>)
    ensures
        sorted_names(names_of(old(list)@)) ==> sorted_names(names_of(final(list)@)),
        forall|x: Seq<char>| #[trigger]
            names_of(final(list)@).contains(x) <==> (names_of(old(list)@).contains(x)
                || names_of(more@).contains(x)),
{
    let ghost before = names_of(list@);
    let mut i: usize = 0;
    while i < more.len()
        invariant
            i <= more@.len(),
            sorted_names(before) ==> sorted_names(names_of(list@)),
            forall|x: Seq<char>| #[trigger]
                names_of(list@).contains(x) <==> (before.contains(x) || exists|j: int|
                    0 <= j < i && names_of(more@)[j] == x),
        decreases more@.len() - i,
    {
        let ghost mid = names_of(list@);
        insert_name(list, more[i].as_str());
        proof {
            assert forall|x: Seq<char>| #[trigger]
                names_of(list@).contains(x) <==> (before.contains(x) || exists|j: int|
                    0 <= j < i + 1 && names_of(more@)[j] == x) by {
                if x == more@[i as int]@ {
                    assert(names_of(more@)[i as int] == x);
                }
                if mid.contains(x) && !before.contains(x) {
                    let j = choose|j: int| 0 <= j < i && names_of(more@)[j] == x;
                    assert(0 <= j < i + 1 && names_of(more@)[j] == x);
                }
            }
        }
        i += 1;
    }
}

} // verus!
