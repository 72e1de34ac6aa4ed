//! Facts about membership and duplicates in sequences that grow by pushing or appending.
use vstd::prelude::*;

verus! {

pub proof fn lemma_push_contains<A>(s: Seq<A>, x: A, q: A)
    ensures
        s.push(x).contains(q) == (s.contains(q) || q == x),
{
    if s.contains(q) {
        let k = choose|k: int| 0 <= k < s.len() && s[k] == q;
        assert(s.push(x)[k] == q);
    }
    if q == x {
        assert(s.push(x)[s.len() as int] == q);
    }
    if s.push(x).contains(q) && q != x {
        let k = choose|k: int| 0 <= k < s.push(x).len() && s.push(x)[k] == q;
        assert(s[k] == q);
    }
}

pub proof fn lemma_push_no_duplicates<A>(s: Seq<A>, x: A)
    requires
        s.no_duplicates(),
        !s.contains(x),
    ensures
        s.push(x).no_duplicates(),
{
    let t = s.push(x);
    assert forall|a: int, b: int| 0 <= a < t.len() && 0 <= b < t.len() && a != b implies t[a]
        != t[b] by {
        if a < s.len() && b < s.len() {
            assert(s[a] != s[b]);
        } else if a < s.len() {
            assert(s.contains(t[a]));
        } else if b < s.len() {
            assert(s.contains(t[b]));
        }
    }
}

pub proof fn lemma_concat_contains<A>(s: Seq<A>, t: Seq<A>, q: A)
    ensures
        (s + t).contains(q) == (s.contains(q) || t.contains(q)),
{
    if s.contains(q) {
        let k = choose|k: int| 0 <= k < s.len() && s[k] == q;
        assert((s + t)[k] == q);
    }
    if t.contains(q) {
        let k = choose|k: int| 0 <= k < t.len() && t[k] == q;
        assert((s + t)[s.len() + k] == q);
    }
    if (s + t).contains(q) {
        let k = choose|k: int| 0 <= k < (s + t).len() && (s + t)[k] == q;
        if k < s.len() {
            assert(s[k] == q);
        } else {
            assert(t[k - s.len()] == q);
        }
    }
}

pub proof fn lemma_concat_no_duplicates<A>(s: Seq<A>, t: Seq<A>)
    requires
        s.no_duplicates(),
        t.no_duplicates(),
        forall|q: A| s.contains(q) ==> !t.contains(q),
    ensures
        (s + t).no_duplicates(),
{
    let u = s + t;
    assert forall|a: int, b: int| 0 <= a < u.len() && 0 <= b < u.len() && a != b implies u[a]
        != u[b] by {
        if a < s.len() && b < s.len() {
            assert(s[a] != s[b]);
        } else if a >= s.len() && b >= s.len() {
            assert(t[a - s.len()] != t[b - s.len()]);
        } else if a < s.len() {
            assert(s.contains(u[a]));
            assert(t.contains(u[b]));
        } else {
            assert(s.contains(u[b]));
            assert(t.contains(u[a]));
        }
    }
}

pub proof fn lemma_map_values_push<A, B>(s: Seq<A>, x: A, f: spec_fn(A) -> B)
    ensures
        s.push(x).map_values(f) == s.map_values(f).push(f(x)),
{
    assert(s.push(x).map_values(f) =~= s.map_values(f).push(f(x)));
}

} // verus!
