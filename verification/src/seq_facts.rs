//! Small facts about sequences of integers that several modules share.

use vstd::prelude::*;

verus! {

pub proof fn lemma_push_contains(s: Seq<u64>, v: u64)
    ensures
        forall|x: u64| #![trigger s.push(v).contains(x)] s.push(v).contains(x) <==> (s.contains(x)
            || x == v),
{
    assert forall|x: u64| s.push(v).contains(x) implies (s.contains(x) || x == v) by {
        let j = choose|j: int| 0 <= j < s.push(v).len() && s.push(v)[j] == x;
        if j < s.len() {
            assert(s[j] == x);
        }
    };
    assert forall|x: u64| s.contains(x) implies s.push(v).contains(x) by {
        let j = choose|j: int| 0 <= j < s.len() && s[j] == x;
        assert(s.push(v)[j] == x);
    };
    assert forall|x: u64| x == v implies s.push(v).contains(x) by {
        assert(s.push(v)[s.len() as int] == x);
    };
}

pub proof fn lemma_insert_to_set(s: Seq<u64>, i: int, v: u64)
    requires
        0 <= i <= s.len(),
    ensures
        s.insert(i, v).to_set() =~= s.to_set().insert(v),
{
    let t = s.insert(i, v);
    s.insert_ensures(i, v);
    assert forall|x: u64| t.to_set().contains(x) implies s.to_set().insert(v).contains(x) by {
        let j = choose|j: int| 0 <= j < t.len() && t[j] == x;
        if j < i {
            assert(s[j] == x);
        } else if j > i {
            assert(s[j - 1] == x);
        }
    };
    assert forall|x: u64| s.to_set().insert(v).contains(x) implies t.to_set().contains(x) by {
        if x == v {
            assert(t[i] == x);
        } else {
            let j = choose|j: int| 0 <= j < s.len() && s[j] == x;
            if j < i {
                assert(t[j] == x);
            } else {
                assert(t[j + 1] == x);
            }
        }
    };
}

pub proof fn lemma_remove_to_set(s: Seq<u64>, i: int)
    requires
        0 <= i < s.len(),
        forall|p: int, q: int| 0 <= p < q < s.len() ==> s[p] != s[q],
    ensures
        s.remove(i).to_set() =~= s.to_set().remove(s[i]),
{
    let t = s.remove(i);
    s.remove_ensures(i);
    assert forall|x: u64| t.to_set().contains(x) implies s.to_set().remove(s[i]).contains(x) by {
        let j = choose|j: int| 0 <= j < t.len() && t[j] == x;
        if j < i {
            assert(s[j] == x);
        } else {
            assert(s[j + 1] == x);
        }
    };
    assert forall|x: u64| s.to_set().remove(s[i]).contains(x) implies t.to_set().contains(x) by {
        let j = choose|j: int| 0 <= j < s.len() && s[j] == x;
        if j < i {
            assert(t[j] == x);
        } else {
            assert(j != i);
            assert(t[j - 1] == x);
        }
    };
}

} // verus!
