use vstd::prelude::*;

verus! {

/// Position of the first element of `s` that satisfies `pred`, if any.
pub open spec fn first_index<T>(s: Seq<T>, pred: spec_fn(T) -> bool) -> Option<int> {
    if exists|i: int| 0 <= i < s.len() && #[trigger] pred(s[i]) {
        Some(
            choose|i: int|
                0 <= i < s.len() && #[trigger] pred(s[i]) && forall|j: int| 0 <= j < i ==> !pred(s[j]),
        )
    } else {
        None
    }
}

proof fn lemma_exists_first<T>(s: Seq<T>, pred: spec_fn(T) -> bool, i: int)
    requires
        0 <= i < s.len(),
        pred(s[i]),
    ensures
        exists|k: int| 0 <= k < s.len() && #[trigger] pred(s[k]) && forall|j: int| 0 <= j < k ==> !pred(s[j]),
    decreases i,
{
    if exists|j: int| 0 <= j < i && #[trigger] pred(s[j]) {
        let j = choose|j: int| 0 <= j < i && #[trigger] pred(s[j]);
        lemma_exists_first(s, pred, j);
    } else {
        assert(forall|j: int| 0 <= j < i ==> !pred(s[j]));
    }
}

/// What `first_index` is: the position of a first match, or `None` when
/// nothing matches.
pub proof fn lemma_first_index<T>(s: Seq<T>, pred: spec_fn(T) -> bool)
    ensures
        match first_index(s, pred) {
            Some(i) => 0 <= i < s.len() && pred(s[i]) && forall|j: int| 0 <= j < i ==> !pred(s[j]),
            None => forall|j: int| 0 <= j < s.len() ==> !pred(s[j]),
        },
{
    if exists|i: int| 0 <= i < s.len() && #[trigger] pred(s[i]) {
        let i = choose|i: int| 0 <= i < s.len() && #[trigger] pred(s[i]);
        lemma_exists_first(s, pred, i);
    }
}

/// A first match found by scanning is the one `first_index` names.
pub proof fn lemma_first_index_at<T>(s: Seq<T>, pred: spec_fn(T) -> bool, i: int)
    requires
        0 <= i < s.len(),
        pred(s[i]),
        forall|j: int| 0 <= j < i ==> !pred(s[j]),
    ensures
        first_index(s, pred) == Some(i),
{
    lemma_first_index(s, pred);
    let k = first_index(s, pred).unwrap();
    if k < i {
        assert(!pred(s[k]));
    }
    if i < k {
        assert(!pred(s[i]));
    }
}

/// Step `i` of path `p` follows an edge.
pub open spec fn path_step<T>(succ: spec_fn(T) -> Set<T>, p: Seq<T>, i: int) -> bool {
    succ(p[i]).contains(p[i + 1])
}

/// `p` is a non-empty walk along the edges given by `succ`.
pub open spec fn is_walk<T>(succ: spec_fn(T) -> Set<T>, p: Seq<T>) -> bool {
    &&& p.len() > 0
    &&& forall|i: int| 0 <= i < p.len() - 1 ==> #[trigger] path_step(succ, p, i)
}

/// `x` can be reached from one of `start` by following edges.
pub open spec fn reaches<T>(succ: spec_fn(T) -> Set<T>, start: Set<T>, x: T) -> bool {
    exists|p: Seq<T>| #[trigger] is_walk(succ, p) && start.contains(p[0]) && p.last() == x
}

/// Everything reachable from `start`, `start` included.
pub open spec fn reachable<T>(succ: spec_fn(T) -> Set<T>, start: Set<T>) -> Set<T> {
    Set::new(|x: T| reaches(succ, start, x))
}

/// Every start node is reachable.
pub proof fn lemma_start_reachable<T>(succ: spec_fn(T) -> Set<T>, start: Set<T>, x: T)
    requires
        start.contains(x),
    ensures
        reachable(succ, start).contains(x),
{
    let p = seq![x];
    assert(is_walk(succ, p));
}

/// A successor of a reachable node is reachable.
pub proof fn lemma_step_reachable<T>(succ: spec_fn(T) -> Set<T>, start: Set<T>, x: T, y: T)
    requires
        reachable(succ, start).contains(x),
        succ(x).contains(y),
    ensures
        reachable(succ, start).contains(y),
{
    let p = choose|p: Seq<T>| #[trigger] is_walk(succ, p) && start.contains(p[0]) && p.last() == x;
    let q = p.push(y);
    assert forall|i: int| 0 <= i < q.len() - 1 implies #[trigger] path_step(succ, q, i) by {
        if i < p.len() - 1 {
            assert(path_step(succ, p, i));
        }
    }
    assert(is_walk(succ, q));
}

proof fn lemma_walk_stays<T>(succ: spec_fn(T) -> Set<T>, closed: Set<T>, p: Seq<T>, n: int)
    requires
        is_walk(succ, p),
        closed.contains(p[0]),
        forall|x: T| #[trigger] closed.contains(x) ==> succ(x).subset_of(closed),
        0 <= n < p.len(),
    ensures
        closed.contains(p[n]),
    decreases n,
{
    if n > 0 {
        lemma_walk_stays(succ, closed, p, n - 1);
        assert(path_step(succ, p, n - 1));
    }
}

/// A set that holds the start nodes and is closed under the edges holds
/// everything reachable.
pub proof fn lemma_closed_holds_reachable<T>(succ: spec_fn(T) -> Set<T>, start: Set<T>, closed: Set<T>)
    requires
        start.subset_of(closed),
        forall|x: T| #[trigger] closed.contains(x) ==> succ(x).subset_of(closed),
    ensures
        reachable(succ, start).subset_of(closed),
{
    assert forall|x: T| reachable(succ, start).contains(x) implies closed.contains(x) by {
        let p = choose|p: Seq<T>| #[trigger] is_walk(succ, p) && start.contains(p[0]) && p.last() == x;
        lemma_walk_stays(succ, closed, p, p.len() - 1);
    }
}

} // verus!
