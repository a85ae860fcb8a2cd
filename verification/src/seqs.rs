//! Facts about sequences and the sets of what they hold.

use vstd::prelude::*;

verus! {

/// What a sequence with one item more at its end holds.
pub proof fn lemma_push_holds<T>(p: Seq<T>, x: T)
    ensures
        p.push(x).to_set() == p.to_set().insert(x),
{
    let q = p.push(x);
    assert forall|y: T| q.to_set().contains(y) <==> p.to_set().insert(x).contains(y) by {
        if q.contains(y) {
            let j = choose|j: int| 0 <= j < q.len() && q[j] == y;
            if j < p.len() {
                assert(p[j] == y);
                assert(p.contains(y));
            }
        }
        if p.contains(y) {
            let j = choose|j: int| 0 <= j < p.len() && p[j] == y;
            assert(q[j] == y);
        }
        if y == x {
            assert(q[p.len() as int] == y);
        }
    }
    assert(q.to_set() =~= p.to_set().insert(x));
}

/// What the first `i + 1` items of a sequence hold: what the first `i` hold,
/// and the item at `i`.
pub proof fn lemma_take_step<T>(s: Seq<T>, i: int)
    requires
        0 <= i < s.len(),
    ensures
        forall|x: T| s.take(i + 1).contains(x) <==> s.take(i).contains(x) || x == s[i],
{
    assert(s.take(i + 1) =~= s.take(i).push(s[i]));
    assert forall|x: T| s.take(i + 1).contains(x) <==> s.take(i).contains(x) || x == s[i] by {
        if s.take(i).contains(x) {
            let j = choose|j: int| 0 <= j < s.take(i).len() && s.take(i)[j] == x;
            assert(s.take(i + 1)[j] == x);
        }
        if x == s[i] {
            assert(s.take(i + 1)[i] == x);
        }
    }
}

/// In a sequence without duplicates, the item at `i` is not among the first
/// `i` items.
pub proof fn lemma_take_fresh<T>(s: Seq<T>, i: int)
    requires
        0 <= i < s.len(),
        s.no_duplicates(),
    ensures
        !s.take(i).contains(s[i]),
{
    if s.take(i).contains(s[i]) {
        let j = choose|j: int| 0 <= j < s.take(i).len() && s.take(i)[j] == s[i];
        assert(s[j] == s[i]);
    }
}

/// A sequence with one item more at its end holds what it held, and that
/// item.
pub proof fn lemma_push_contains<T>(p: Seq<T>, x: T)
    ensures
        forall|y: T| #[trigger] p.push(x).contains(y) <==> p.contains(y) || y == x,
{
    let q = p.push(x);
    assert forall|y: T| #[trigger] q.contains(y) <==> p.contains(y) || y == x by {
        if q.contains(y) {
            let j = choose|j: int| 0 <= j < q.len() && q[j] == y;
            if j < p.len() {
                assert(p[j] == y);
            }
        }
        if p.contains(y) {
            let j = choose|j: int| 0 <= j < p.len() && p[j] == y;
            assert(q[j] == y);
        }
        if y == x {
            assert(q[p.len() as int] == y);
        }
    }
}

/// A sequence that lists a set holds, taken whole, just what the set holds.
pub proof fn lemma_all_taken<T>(s: Seq<T>, all: Set<T>)
    requires
        s.to_set() == all,
    ensures
        s.take(s.len() as int) == s,
        forall|x: T| all.contains(x) <==> s.contains(x),
{
    assert(s.take(s.len() as int) =~= s);
    assert forall|x: T| all.contains(x) <==> s.contains(x) by {
        if all.contains(x) {
            assert(s.to_set().contains(x));
        }
        if s.contains(x) {
            assert(s.to_set().contains(x));
        }
    }
}

} // verus!
