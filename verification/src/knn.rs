//! Selection of the nearest neighbours: a list of at most `k` candidates,
//! kept in ascending order of distance and, among equal distances, of user.
use vstd::prelude::*;

verus! {

/// A candidate neighbour with its distance.
#[derive(Clone, Copy, Debug)]
pub struct Neighbor {
    pub user: u64,
    pub distance: i64,
}

/// `a` comes strictly before `b`: nearer, or as near with the smaller user.
pub open spec fn precedes(a: Neighbor, b: Neighbor) -> bool {
    a.distance < b.distance || (a.distance == b.distance && a.user < b.user)
}

/// Each neighbour comes strictly before the next.
pub open spec fn ordered(s: Seq<Neighbor>) -> bool {
    forall|i: int, j: int| 0 <= i < j < s.len() ==> precedes(s[i], s[j])
}

/// Some neighbour of `s` is `user`.
pub open spec fn lists(s: Seq<Neighbor>, user: u64) -> bool {
    exists|i: int| 0 <= i < s.len() && s[i].user == user
}

/// The neighbour is one of `s`.
pub open spec fn member(s: Seq<Neighbor>, n: Neighbor) -> bool {
    exists|j: int| 0 <= j < s.len() && s[j] == n
}

/// No user is listed twice.
pub open spec fn unique(s: Seq<Neighbor>) -> bool {
    forall|i: int, j: int| 0 <= i < j < s.len() ==> s[i].user != s[j].user
}

/// How many neighbours of `s` come before `e`.
pub open spec fn rank(s: Seq<Neighbor>, e: Neighbor) -> nat
    decreases s.len(),
{
    if s.len() == 0 {
        0
    } else {
        rank(s.drop_last(), e) + if precedes(s.last(), e) {
            1nat
        } else {
            0nat
        }
    }
}

/// The list after `e` was offered: unchanged where its user is listed
/// already; otherwise `e` is put at its rank and the list cut to `k`.
pub open spec fn offered(s: Seq<Neighbor>, e: Neighbor, k: nat) -> Seq<Neighbor> {
    if lists(s, e.user) {
        s
    } else {
        let grown = s.insert(rank(s, e) as int, e);
        if grown.len() > k {
            grown.take(k as int)
        } else {
            grown
        }
    }
}

/// The list `s` after all of `candidates` were offered to it in turn.
pub open spec fn offered_all(s: Seq<Neighbor>, candidates: Seq<Neighbor>, k: nat) -> Seq<Neighbor>
    decreases candidates.len(),
{
    if candidates.len() == 0 {
        s
    } else {
        offered(offered_all(s, candidates.drop_last(), k), candidates.last(), k)
    }
}

/// The list after all of `candidates` were offered in turn to the empty list.
pub open spec fn selected(candidates: Seq<Neighbor>, k: nat) -> Seq<Neighbor> {
    offered_all(Seq::<Neighbor>::empty(), candidates, k)
}

/// In an ordered list the rank of `e` splits it: what stands before the
/// rank comes before `e`, what stands from the rank on does not.
pub proof fn lemma_rank(s: Seq<Neighbor>, e: Neighbor)
    requires
        ordered(s),
    ensures
        rank(s, e) <= s.len(),
        forall|i: int| 0 <= i < rank(s, e) ==> precedes(#[trigger] s[i], e),
        forall|i: int| rank(s, e) <= i < s.len() ==> !precedes(#[trigger] s[i], e),
    decreases s.len(),
{
    if s.len() > 0 {
        let t = s.drop_last();
        assert(ordered(t));
        lemma_rank(t, e);
        if precedes(s.last(), e) {
            assert forall|i: int| 0 <= i < t.len() implies precedes(#[trigger] t[i], e) by {
                assert(precedes(s[i], s[s.len() - 1]));
            }
            assert(rank(t, e) == t.len()) by {
                if rank(t, e) < t.len() {
                    assert(!precedes(t[rank(t, e) as int], e));
                }
            }
        }
        assert forall|i: int| 0 <= i < rank(s, e) implies precedes(#[trigger] s[i], e) by {
            if i < t.len() {
                assert(s[i] == t[i]);
            }
        }
        assert forall|i: int| rank(s, e) <= i < s.len() implies !precedes(#[trigger] s[i], e) by {
            if i < t.len() {
                assert(s[i] == t[i]);
            }
        }
    }
}

/// Offering keeps a list ordered, without a user listed twice, and no
/// longer than `k`; it lists nobody but `e` and who was listed.
pub proof fn lemma_offered(s: Seq<Neighbor>, e: Neighbor, k: nat)
    requires
        ordered(s),
        unique(s),
        s.len() <= k,
    ensures
        ordered(offered(s, e, k)),
        unique(offered(s, e, k)),
        offered(s, e, k).len() <= k,
        forall|i: int|
            0 <= i < offered(s, e, k).len() ==> (#[trigger] offered(s, e, k)[i]) == e || lists(
                s,
                offered(s, e, k)[i].user,
            ),
        forall|i: int|
            0 <= i < offered(s, e, k).len() ==> (#[trigger] offered(s, e, k)[i]) == e || exists|
                j: int,
            |
                0 <= j < s.len() && s[j] == offered(s, e, k)[i],
{
    lemma_rank(s, e);
    if !lists(s, e.user) {
        let p = rank(s, e) as int;
        let grown = s.insert(p, e);
        assert forall|i: int, j: int| 0 <= i < j < grown.len() implies precedes(
            grown[i],
            grown[j],
        ) && grown[i].user != grown[j].user by {
            if j < p {
                assert(precedes(s[i], s[j]));
            } else if j == p {
                assert(grown[i] == s[i]);
                assert(s[i].user != e.user);
            } else if i < p {
                assert(precedes(s[i], s[j - 1]));
            } else if i == p {
                assert(grown[j] == s[j - 1]);
                assert(!precedes(s[j - 1], e));
                assert(s[j - 1].user != e.user);
            } else {
                assert(precedes(s[i - 1], s[j - 1]));
            }
        }
        let r = offered(s, e, k);
        assert forall|i: int| 0 <= i < r.len() implies r[i] == grown[i] by {
        }
        assert forall|i: int| 0 <= i < r.len() implies (#[trigger] r[i]) == e || exists|j: int|
            0 <= j < s.len() && s[j] == r[i] by {
            if i < p {
                assert(s[i] == r[i]);
            } else if i > p {
                assert(s[i - 1] == r[i]);
            }
        }
        assert forall|i: int| 0 <= i < r.len() implies (#[trigger] r[i]) == e || lists(
            s,
            r[i].user,
        ) by {
            if i < p {
                assert(s[i] == r[i]);
            } else if i > p {
                assert(s[i - 1] == r[i]);
            }
        }
    } else {
        let r = offered(s, e, k);
        assert forall|i: int| 0 <= i < r.len() implies (#[trigger] r[i]) == e || exists|j: int|
            0 <= j < s.len() && s[j] == r[i] by {
            assert(s[i] == r[i]);
        }
    }
}

/// The selection is ordered by ascending distance, lists no user twice,
/// holds at most `k` neighbours, and each of them is a candidate.
pub proof fn lemma_selected(candidates: Seq<Neighbor>, k: nat)
    ensures
        ordered(selected(candidates, k)),
        unique(selected(candidates, k)),
        selected(candidates, k).len() <= k,
        selected(candidates, k).len() <= candidates.len(),
        forall|i: int|
            0 <= i < selected(candidates, k).len() ==> exists|j: int|
                0 <= j < candidates.len() && candidates[j] == #[trigger] selected(
                    candidates,
                    k,
                )[i],
    decreases candidates.len(),
{
    if candidates.len() > 0 {
        let front = candidates.drop_last();
        let e = candidates.last();
        lemma_selected(front, k);
        let s = selected(front, k);
        lemma_offered(s, e, k);
        let r = selected(candidates, k);
        assert(r.len() <= s.len() + 1) by {
            lemma_rank(s, e);
            if !lists(s, e.user) {
                assert(s.insert(rank(s, e) as int, e).len() == s.len() + 1);
            }
        }
        assert forall|i: int| 0 <= i < r.len() implies exists|j: int|
            0 <= j < candidates.len() && candidates[j] == #[trigger] r[i] by {
            if r[i] == e {
                assert(candidates[candidates.len() - 1] == r[i]);
            } else {
                let q = choose|q: int| 0 <= q < s.len() && s[q] == r[i];
                let j = choose|j: int| 0 <= j < front.len() && front[j] == s[q];
                assert(candidates[j] == r[i]);
            }
        }
    }
}

/// Where no two candidates are the same user, the selection holds the
/// nearest of them: a candidate that is left out comes after every
/// selected neighbour, and none is left out while fewer than `k` are
/// selected.
pub proof fn lemma_selected_nearest(candidates: Seq<Neighbor>, k: nat)
    requires
        unique(candidates),
    ensures
        forall|i: int, j: int|
            0 <= i < selected(candidates, k).len() && 0 <= j < candidates.len() && !lists(
                selected(candidates, k),
                (#[trigger] candidates[j]).user,
            ) ==> precedes(#[trigger] selected(candidates, k)[i], candidates[j]),
        forall|j: int|
            0 <= j < candidates.len() && !lists(
                selected(candidates, k),
                (#[trigger] candidates[j]).user,
            ) ==> selected(candidates, k).len() == k,
    decreases candidates.len(),
{
    if candidates.len() > 0 {
        let front = candidates.drop_last();
        let e = candidates.last();
        let s = selected(front, k);
        let r = selected(candidates, k);
        assert(unique(front)) by {
            assert forall|i: int, j: int| 0 <= i < j < front.len() implies front[i].user
                != front[j].user by {
                assert(candidates[i].user != candidates[j].user);
            }
        }
        lemma_selected_nearest(front, k);
        lemma_selected(front, k);
        lemma_rank(s, e);
        assert(!lists(s, e.user)) by {
            if lists(s, e.user) {
                let q = choose|q: int| 0 <= q < s.len() && s[q].user == e.user;
                let j = choose|j: int| 0 <= j < front.len() && front[j] == s[q];
                assert(candidates[j].user != candidates[candidates.len() - 1].user);
            }
        }
        let p = rank(s, e) as int;
        let grown = s.insert(p, e);
        lemma_offered(s, e, k + 1);
        assert(offered(s, e, k + 1) == grown);
        assert(ordered(grown));
        if grown.len() <= k {
            assert(r == grown);
            assert forall|j: int| 0 <= j < candidates.len() implies lists(
                r,
                (#[trigger] candidates[j]).user,
            ) by {
                if j < front.len() {
                    assert(front[j] == candidates[j]);
                    assert(lists(s, front[j].user));
                    let q = choose|q: int| 0 <= q < s.len() && s[q].user == front[j].user;
                    let q2 = if q < p {
                        q
                    } else {
                        q + 1
                    };
                    assert(grown[q2] == s[q]);
                } else {
                    assert(grown[p] == e);
                }
            }
        } else {
            assert(s.len() == k);
            assert(r == grown.take(k as int));
            let d = grown[k as int];
            assert forall|i: int, j: int|
                0 <= i < r.len() && 0 <= j < candidates.len() && !lists(
                    r,
                    (#[trigger] candidates[j]).user,
                ) implies precedes(#[trigger] r[i], candidates[j]) by {
                let c = candidates[j];
                assert(r[i] == grown[i]);
                assert(precedes(grown[i], d));
                if j == candidates.len() - 1 {
                    if p < k {
                        assert(r[p] == e);
                        assert(lists(r, e.user));
                    }
                    assert(d == e);
                } else {
                    assert(front[j] == c);
                    if lists(s, c.user) {
                        let q = choose|q: int| 0 <= q < s.len() && s[q].user == c.user;
                        let j2 = choose|j2: int| 0 <= j2 < front.len() && front[j2] == s[q];
                        if j2 < j {
                            assert(front[j2].user != front[j].user);
                        } else if j < j2 {
                            assert(front[j].user != front[j2].user);
                        }
                        assert(s[q] == c);
                        let q2 = if q < p {
                            q
                        } else {
                            q + 1
                        };
                        assert(grown[q2] == c);
                        if q2 < k {
                            assert(r[q2] == c);
                            assert(lists(r, c.user));
                        }
                        assert(d == c);
                    } else {
                        if i < p {
                            assert(r[i] == s[i]);
                        } else if i == p {
                            assert(d == s[k - 1]);
                            assert(precedes(s[k - 1], c));
                        } else {
                            assert(r[i] == s[i - 1]);
                        }
                    }
                }
            }
        }
    }
}

/// Offers `e` to the list `best` of at most `k` neighbours.
pub fn offer(best: Vec<Neighbor>, e: Neighbor, k: usize) -> (r: Vec<Neighbor>)
    requires
        ordered(best@),
        unique(best@),
        best@.len() <= k,
    ensures
        r@ == offered(best@, e, k as nat),
        ordered(r@),
        unique(r@),
        r@.len() <= k,
{
    proof {
        lemma_offered(best@, e, k as nat);
        lemma_rank(best@, e);
    }
    let mut best = best;
    let n: usize = best.len();
    let mut listed: bool = false;
    let mut p: usize = 0;
    let mut i: usize = 0;
    assert(best@.subrange(0, 0) =~= Seq::<Neighbor>::empty());
    while i < n
        invariant
            i <= n,
            n == best@.len(),
            listed <==> exists|j: int| 0 <= j < i && best@[j].user == e.user,
            p == rank(best@.subrange(0, i as int), e),
            p <= i,
        decreases n - i,
    {
        let x: Neighbor = best[i];
        proof {
            let next = best@.subrange(0, i + 1);
            assert(next.drop_last() =~= best@.subrange(0, i as int));
            assert(next.last() == x);
        }
        if x.user == e.user {
            listed = true;
        }
        if x.distance < e.distance || (x.distance == e.distance && x.user < e.user) {
            p = p + 1;
        }
        i = i + 1;
    }
    assert(best@.subrange(0, n as int) =~= best@);
    if listed {
        return best;
    }
    if p >= k {
        proof {
            let grown = best@.insert(p as int, e);
            assert(grown.take(k as int) =~= best@);
        }
        return best;
    }
    let ghost before = best@;
    best.insert(p, e);
    if best.len() > k {
        best.truncate(k);
        assert(best@ =~= before.insert(p as int, e).take(k as int));
    }
    best
}

/// Offering all of `candidates` keeps a list ordered, without a user
/// listed twice, and no longer than `k`; it lists nobody but candidates
/// and who was listed.
pub proof fn lemma_offered_all(s: Seq<Neighbor>, candidates: Seq<Neighbor>, k: nat)
    requires
        ordered(s),
        unique(s),
        s.len() <= k,
    ensures
        ordered(offered_all(s, candidates, k)),
        unique(offered_all(s, candidates, k)),
        offered_all(s, candidates, k).len() <= k,
        forall|i: int|
            0 <= i < offered_all(s, candidates, k).len() ==> member(
                s,
                #[trigger] offered_all(s, candidates, k)[i],
            ) || member(candidates, offered_all(s, candidates, k)[i]),
    decreases candidates.len(),
{
    let r = offered_all(s, candidates, k);
    if candidates.len() > 0 {
        let front = candidates.drop_last();
        let e = candidates.last();
        lemma_offered_all(s, front, k);
        let mid = offered_all(s, front, k);
        lemma_offered(mid, e, k);
        assert forall|i: int| 0 <= i < r.len() implies member(s, #[trigger] r[i]) || member(
            candidates,
            r[i],
        ) by {
            if r[i] == e {
                assert(candidates[candidates.len() - 1] == e);
            } else {
                let q = choose|q: int| 0 <= q < mid.len() && mid[q] == r[i];
                if member(front, mid[q]) {
                    let j = choose|j: int| 0 <= j < front.len() && front[j] == mid[q];
                    assert(candidates[j] == r[i]);
                }
            }
        }
    } else {
        assert forall|i: int| 0 <= i < r.len() implies member(s, #[trigger] r[i]) by {
            assert(s[i] == r[i]);
        }
    }
}

/// Offers all of `candidates` in turn to the list `best` of at most `k`
/// neighbours.
pub fn offer_all(best: Vec<Neighbor>, candidates: &Vec<Neighbor>, k: usize) -> (r: Vec<Neighbor>)
    requires
        ordered(best@),
        unique(best@),
        best@.len() <= k,
    ensures
        r@ == offered_all(best@, candidates@, k as nat),
        ordered(r@),
        unique(r@),
        r@.len() <= k,
{
    let ghost start = best@;
    let mut best = best;
    let mut i: usize = 0;
    assert(candidates@.subrange(0, 0) =~= Seq::<Neighbor>::empty());
    while i < candidates.len()
        invariant
            i <= candidates@.len(),
            best@ == offered_all(start, candidates@.subrange(0, i as int), k as nat),
            ordered(best@),
            unique(best@),
            best@.len() <= k,
        decreases candidates@.len() - i,
    {
        proof {
            let next = candidates@.subrange(0, i + 1);
            assert(next.drop_last() =~= candidates@.subrange(0, i as int));
            assert(next.last() == candidates@[i as int]);
        }
        best = offer(best, candidates[i], k);
        i = i + 1;
    }
    assert(candidates@.subrange(0, i as int) =~= candidates@);
    best
}

/// The `k` nearest of `candidates`: ascending by distance, then by user;
/// of two candidates with one user the first counts.
pub fn nearest(candidates: &Vec<Neighbor>, k: usize) -> (r: Vec<Neighbor>)
    ensures
        r@ == selected(candidates@, k as nat),
        ordered(r@),
        unique(r@),
        r@.len() <= k,
        r@.len() <= candidates@.len(),
{
    proof {
        lemma_selected(candidates@, k as nat);
    }
    offer_all(Vec::new(), candidates, k)
}

} // verus!
