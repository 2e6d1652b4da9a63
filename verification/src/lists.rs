//! Small facts about sequences used as lists without repetition.

use vstd::prelude::*;

verus! {

/// What a list holds after one more item was put at its end.
pub proof fn lemma_push_contains<A>(s: Seq<A>, a: A, x: A)
    ensures
        s.push(a).contains(x) <==> (s.contains(x) || x == a),
{
    let t = s.push(a);
    if s.contains(x) {
        let i = choose|i: int| 0 <= i < s.len() && s[i] == x;
        assert(t[i] == x);
    }
    if x == a {
        assert(t[s.len() as int] == x);
    }
    if t.contains(x) {
        let i = choose|i: int| 0 <= i < t.len() && t[i] == x;
        if i < s.len() {
            assert(s[i] == x);
        }
    }
}

/// A list without repetition stays so when an item that it lacks is put at
/// its end.
pub proof fn lemma_push_no_duplicates<A>(s: Seq<A>, a: A)
    requires
        s.no_duplicates(),
        !s.contains(a),
    ensures
        s.push(a).no_duplicates(),
{
    let t = s.push(a);
    assert forall|i: int, j: int| 0 <= i < t.len() && 0 <= j < t.len() && i != j implies t[i]
        != t[j] by {
        if j >= s.len() {
            assert(s[i] != a);
        } else if i >= s.len() {
            assert(s[j] != a);
        }
    }
}

/// The empty list holds nothing.
pub proof fn lemma_empty_contains<A>(x: A)
    ensures
        !Seq::<A>::empty().contains(x),
        Seq::<A>::empty().no_duplicates(),
{
}

} // verus!
