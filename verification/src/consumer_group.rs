//! Consumer groups: members that share the partitions of a topic, with
//! round-robin, range and sticky assignment, heartbeats and committed
//! offsets.

use vstd::prelude::*;
use crate::clock::unix_time_secs;
use crate::ids::new_uuid_v4;
use crate::partition::copy_pairs;
use crate::keyed::Keyed;
use crate::text::{concat, same_text};

verus! {

// ---------------------------------------------------------------------------
// Assignment rules, over the members' partition lists in member order
// ---------------------------------------------------------------------------

/// Whether `l` is, in increasing order, exactly the partitions below `count`
/// whose number is `i` modulo `n`: member `i`'s round-robin share.
pub open spec fn is_rr_list(l: Seq<usize>, count: nat, n: nat, i: nat) -> bool {
    &&& forall|x: int, y: int| 0 <= x < y < l.len() ==> l[x] < l[y]
    &&& forall|x: int| 0 <= x < l.len() ==> (#[trigger] l[x]) < count && (l[x] as nat) % n == i
    &&& forall|p: usize| p < count && (p as nat) % n == i ==> l.contains(p)
}

/// Round-robin gives every partition to exactly one member: partition `p`
/// to member `p` modulo the number of members.
pub proof fn lemma_round_robin_exclusive(lists: Seq<Seq<usize>>, count: nat, p: usize)
    requires
        lists.len() > 0,
        forall|i: int| 0 <= i < lists.len() ==> is_rr_list(#[trigger] lists[i], count, lists.len(), i as nat),
        p < count,
    ensures
        lists[((p as nat) % lists.len()) as int].contains(p),
        forall|i: int| 0 <= i < lists.len() && i != (p as nat) % lists.len() ==> !(#[trigger] lists[i]).contains(p),
{
    let n = lists.len();
    let m = ((p as nat) % n) as int;
    assert(is_rr_list(lists[m], count, n, m as nat));
    assert forall|i: int| 0 <= i < n && i != m implies !(#[trigger] lists[i]).contains(p) by {
        assert(is_rr_list(lists[i], count, n, i as nat));
        if lists[i].contains(p) {
            let x = choose|x: int| 0 <= x < lists[i].len() && lists[i][x] == p;
            assert((lists[i][x] as nat) % n == i as nat);
        }
    }
}

/// Range assignment covers the partitions exactly: the shares follow one
/// another from 0 up to the partition count, and differ by at most one.
pub proof fn lemma_range_covers(count: nat, n: nat)
    requires
        n > 0,
    ensures
        range_start(count, n, n) == count,
        forall|i: nat| i < n ==> #[trigger] range_share(count, n, i) == count / n
            || range_share(count, n, i) == count / n + 1,
        forall|i: nat| i < n ==> #[trigger] range_start(count, n, i + 1) == range_start(count, n, i) + range_share(count, n, i),
{
    lemma_range_start(count, n, n);
    assert(count % n < n) by (nonlinear_arith)
        requires n > 0;
    assert(count == n * (count / n) + count % n) by (nonlinear_arith)
        requires n > 0;
    assert(n * (count / n) == n * (count / n));
}

/// The number of partitions member `i` of `n` gets by range assignment.
pub open spec fn range_share(count: nat, n: nat, i: nat) -> nat {
    if i < count % n { count / n + 1 } else { count / n }
}

/// The first partition member `i` gets by range assignment.
pub open spec fn range_start(count: nat, n: nat, i: nat) -> nat
    decreases i,
{
    if i == 0 { 0 } else { range_start(count, n, (i - 1) as nat) + range_share(count, n, (i - 1) as nat) }
}

/// Member `i`'s range share: consecutive partitions from its start.
pub open spec fn range_list(count: nat, n: nat, i: nat) -> Seq<usize> {
    Seq::new(range_share(count, n, i), |k: int| (range_start(count, n, i) + k) as usize)
}

/// Whether partition `p` is in some list of `lists`.
pub open spec fn held(lists: Seq<Seq<usize>>, p: usize) -> bool {
    exists|m: int| 0 <= m < lists.len() && (#[trigger] lists[m]).contains(p)
}

/// The partitions below `count` that no list holds, in increasing order.
pub open spec fn free_partitions(lists: Seq<Seq<usize>>, count: nat) -> Seq<usize>
    decreases count,
{
    if count == 0 {
        Seq::empty()
    } else {
        let rest = free_partitions(lists, (count - 1) as nat);
        if held(lists, (count - 1) as usize) { rest } else { rest.push((count - 1) as usize) }
    }
}

/// `lists` with the partitions of `free` dealt out in turn: the `k`-th of
/// them to list `k` modulo the number of lists.
pub open spec fn deal(lists: Seq<Seq<usize>>, free: Seq<usize>) -> Seq<Seq<usize>>
    decreases free.len(),
{
    if free.len() == 0 {
        lists
    } else {
        let before = deal(lists, free.drop_last());
        let m = ((free.len() - 1) as int) % (lists.len() as int);
        before.update(m, before[m].push(free.last()))
    }
}

/// The index of the first list shorter than `target`, if any.
pub open spec fn first_under(lists: Seq<Seq<usize>>, target: nat) -> Option<int>
    decreases lists.len(),
{
    if lists.len() == 0 {
        None
    } else {
        match first_under(lists.drop_last(), target) {
            Some(i) => Some(i),
            None => if lists.last().len() < target { Some((lists.len() - 1) as int) } else { None },
        }
    }
}

/// Put partition `p` on the first list shorter than `target`; failing
/// that, on the first list of at most `target` partitions; failing that,
/// back on list `o`. Either way it is held once more.
pub open spec fn place_one(lists: Seq<Seq<usize>>, p: usize, target: nat, o: int) -> Seq<Seq<usize>> {
    match first_under(lists, target) {
        Some(u) => lists.update(u, lists[u].push(p)),
        None => match first_under(lists, target + 1) {
            Some(u) => lists.update(u, lists[u].push(p)),
            None => lists.update(o, lists[o].push(p)),
        },
    }
}

/// Place each partition of `ps`, in order (see `place_one`).
pub open spec fn place_all(lists: Seq<Seq<usize>>, ps: Seq<usize>, target: nat, o: int) -> Seq<Seq<usize>>
    decreases ps.len(),
{
    if ps.len() == 0 {
        lists
    } else {
        place_one(place_all(lists, ps.drop_last(), target, o), ps.last(), target, o)
    }
}

/// For the lists `o..n`, in order: a list longer than `target + 1` keeps
/// its first `target + 1` partitions and the rest are placed elsewhere.
pub open spec fn shed_from(lists: Seq<Seq<usize>>, n: nat, o: nat, target: nat) -> Seq<Seq<usize>>
    decreases n - o,
{
    if o >= n {
        lists
    } else {
        let l = lists[o as int];
        let k = (target + 1) as int;
        let next = if l.len() > target + 1 {
            place_all(lists.update(o as int, l.take(k)), l.skip(k), target, o as int)
        } else {
            lists
        };
        shed_from(next, n, o + 1, target)
    }
}

/// Sticky assignment: keep what is held, deal out the free partitions in
/// turn, then move the partitions of lists longer than one past the
/// average to the shortest-placed lists (see `place_one`).
pub open spec fn sticky_lists(lists: Seq<Seq<usize>>, count: nat) -> Seq<Seq<usize>> {
    let dealt = deal(lists, free_partitions(lists, count));
    shed_from(dealt, lists.len(), 0, count / lists.len())
}

/// How many times `l` holds `p`.
pub open spec fn occ_in(l: Seq<usize>, p: usize) -> nat
    decreases l.len(),
{
    if l.len() == 0 {
        0
    } else {
        occ_in(l.drop_last(), p) + if l.last() == p { 1nat } else { 0nat }
    }
}

/// How many times the lists together hold `p`.
pub open spec fn occ(lists: Seq<Seq<usize>>, p: usize) -> nat
    decreases lists.len(),
{
    if lists.len() == 0 {
        0
    } else {
        occ(lists.drop_last(), p) + occ_in(lists.last(), p)
    }
}

proof fn lemma_occ_in_push(l: Seq<usize>, x: usize, p: usize)
    ensures
        occ_in(l.push(x), p) == occ_in(l, p) + if x == p { 1nat } else { 0nat },
{
    assert(l.push(x).drop_last() =~= l);
}

proof fn lemma_occ_in_concat(a: Seq<usize>, b: Seq<usize>, p: usize)
    ensures
        occ_in(a + b, p) == occ_in(a, p) + occ_in(b, p),
    decreases b.len(),
{
    if b.len() > 0 {
        lemma_occ_in_concat(a, b.drop_last(), p);
        assert((a + b).drop_last() =~= a + b.drop_last());
    } else {
        assert(a + b =~= a);
    }
}

proof fn lemma_occ_in_contains(l: Seq<usize>, p: usize)
    ensures
        occ_in(l, p) > 0 <==> l.contains(p),
    decreases l.len(),
{
    if l.len() > 0 {
        lemma_occ_in_contains(l.drop_last(), p);
        if l.drop_last().contains(p) {
            let i = choose|i: int| 0 <= i < l.drop_last().len() && l.drop_last()[i] == p;
            assert(l[i] == p);
        }
        if l.contains(p) && l.last() != p {
            let i = choose|i: int| 0 <= i < l.len() && l[i] == p;
            assert(l.drop_last()[i] == p);
        }
    }
}

proof fn lemma_occ_held(lists: Seq<Seq<usize>>, p: usize)
    ensures
        occ(lists, p) > 0 <==> held(lists, p),
    decreases lists.len(),
{
    if lists.len() > 0 {
        let d = lists.drop_last();
        lemma_occ_held(d, p);
        lemma_occ_in_contains(lists.last(), p);
        if held(d, p) {
            let m = choose|m: int| 0 <= m < d.len() && (#[trigger] d[m]).contains(p);
            assert(lists[m] == d[m]);
        }
        if lists.last().contains(p) {
            assert(lists[lists.len() - 1].contains(p));
        }
        if held(lists, p) && !lists.last().contains(p) {
            let m = choose|m: int| 0 <= m < lists.len() && (#[trigger] lists[m]).contains(p);
            assert(d[m] == lists[m]);
        }
    }
}

proof fn lemma_occ_update(lists: Seq<Seq<usize>>, i: int, l: Seq<usize>, p: usize)
    requires
        0 <= i < lists.len(),
    ensures
        occ(lists.update(i, l), p) + occ_in(lists[i], p) == occ(lists, p) + occ_in(l, p),
    decreases lists.len(),
{
    let u = lists.update(i, l);
    if i == lists.len() - 1 {
        assert(u.drop_last() =~= lists.drop_last());
    } else {
        lemma_occ_update(lists.drop_last(), i, l, p);
        assert(u.drop_last() =~= lists.drop_last().update(i, l));
    }
}

proof fn lemma_occ_place_one(lists: Seq<Seq<usize>>, q: usize, target: nat, o: int, p: usize)
    requires
        0 <= o < lists.len(),
    ensures
        place_one(lists, q, target, o).len() == lists.len(),
        occ(place_one(lists, q, target, o), p) == occ(lists, p) + if q == p { 1nat } else { 0nat },
{
    lemma_first_under_range(lists, target);
    lemma_first_under_range(lists, target + 1);
    let u = match first_under(lists, target) {
        Some(u) => u,
        None => match first_under(lists, target + 1) {
            Some(u) => u,
            None => o,
        },
    };
    lemma_occ_update(lists, u, lists[u].push(q), p);
    lemma_occ_in_push(lists[u], q, p);
}

proof fn lemma_occ_place_all(lists: Seq<Seq<usize>>, ps: Seq<usize>, target: nat, o: int, p: usize)
    requires
        0 <= o < lists.len(),
    ensures
        place_all(lists, ps, target, o).len() == lists.len(),
        occ(place_all(lists, ps, target, o), p) == occ(lists, p) + occ_in(ps, p),
    decreases ps.len(),
{
    if ps.len() > 0 {
        lemma_occ_place_all(lists, ps.drop_last(), target, o, p);
        lemma_occ_place_one(place_all(lists, ps.drop_last(), target, o), ps.last(), target, o, p);
    }
}

proof fn lemma_occ_shed(lists: Seq<Seq<usize>>, n: nat, o: nat, target: nat, p: usize)
    requires
        n == lists.len(),
    ensures
        shed_from(lists, n, o, target).len() == n,
        occ(shed_from(lists, n, o, target), p) == occ(lists, p),
    decreases n - o,
{
    if o < n {
        let l = lists[o as int];
        let k = (target + 1) as int;
        let next = if l.len() > target + 1 {
            place_all(lists.update(o as int, l.take(k)), l.skip(k), target, o as int)
        } else {
            lists
        };
        if l.len() > target + 1 {
            lemma_occ_update(lists, o as int, l.take(k), p);
            lemma_occ_place_all(lists.update(o as int, l.take(k)), l.skip(k), target, o as int, p);
            assert(l =~= l.take(k) + l.skip(k));
            lemma_occ_in_concat(l.take(k), l.skip(k), p);
        }
        lemma_occ_shed(next, n, o + 1, target, p);
    }
}

proof fn lemma_occ_deal(lists: Seq<Seq<usize>>, free: Seq<usize>, p: usize)
    requires
        lists.len() > 0,
    ensures
        deal(lists, free).len() == lists.len(),
        occ(deal(lists, free), p) == occ(lists, p) + occ_in(free, p),
    decreases free.len(),
{
    if free.len() > 0 {
        let before = deal(lists, free.drop_last());
        lemma_occ_deal(lists, free.drop_last(), p);
        let m = ((free.len() - 1) as int) % (lists.len() as int);
        lemma_occ_update(before, m, before[m].push(free.last()), p);
        lemma_occ_in_push(before[m], free.last(), p);
    }
}

proof fn lemma_occ_free(lists: Seq<Seq<usize>>, count: nat, p: usize)
    requires
        count <= usize::MAX + 1,
    ensures
        occ_in(free_partitions(lists, count), p) == if p < count && !held(lists, p) { 1nat } else { 0nat },
    decreases count,
{
    if count > 0 {
        let rest = free_partitions(lists, (count - 1) as nat);
        lemma_occ_free(lists, (count - 1) as nat, p);
        lemma_occ_in_push(rest, (count - 1) as usize, p);
    }
}

/// Sticky assignment holds every partition exactly once, when no partition
/// was held twice before; a partition past the count is held as often as
/// before.
pub proof fn lemma_sticky_exactly_once(lists: Seq<Seq<usize>>, count: nat, p: usize)
    requires
        lists.len() > 0,
        count <= usize::MAX + 1,
        occ(lists, p) <= 1,
    ensures
        p < count ==> occ(sticky_lists(lists, count), p) == 1,
        p >= count ==> occ(sticky_lists(lists, count), p) == occ(lists, p),
{
    let free = free_partitions(lists, count);
    lemma_occ_free(lists, count, p);
    lemma_occ_held(lists, p);
    lemma_occ_deal(lists, free, p);
    let dealt = deal(lists, free);
    lemma_occ_shed(dealt, lists.len(), 0, count / lists.len(), p);
}

/// The view of a list of partition lists.
pub open spec fn lists_view(v: Seq<Vec<usize>>) -> Seq<Seq<usize>> {
    v.map_values(|l: Vec<usize>| l@)
}

/// `n` empty lists.
fn empty_lists(n: usize) -> (r: Vec<Vec<usize>>)
    ensures
        r@.len() == n,
        forall|i: int| 0 <= i < n ==> (#[trigger] r@[i])@.len() == 0,
{
    let mut r: Vec<Vec<usize>> = Vec::new();
    let mut i: usize = 0;
    while i < n
        invariant
            i <= n,
            r@.len() == i,
            forall|j: int| 0 <= j < i ==> (#[trigger] r@[j])@.len() == 0,
        decreases n - i,
    {
        r.push(Vec::new());
        i = i + 1;
    }
    r
}

/// Append `p` to list `m`.
fn push_to(lists: &mut Vec<Vec<usize>>, m: usize, p: usize)
    requires
        m < old(lists)@.len(),
    ensures
        final(lists)@.len() == old(lists)@.len(),
        lists_view(final(lists)@) == lists_view(old(lists)@).update(m as int, old(lists)@[m as int]@.push(p)),
        forall|i: int| 0 <= i < old(lists)@.len() && i != m ==> (#[trigger] final(lists)@[i])@ == old(lists)@[i]@,
        final(lists)@[m as int]@ == old(lists)@[m as int]@.push(p),
{
    let mut l: Vec<usize> = Vec::new();
    lists.set_and_swap(m, &mut l);
    l.push(p);
    lists.set(m, l);
    proof {
        assert(lists_view(lists@) =~= lists_view(old(lists)@).update(m as int, old(lists)@[m as int]@.push(p)));
        assert forall|i: int| 0 <= i < old(lists)@.len() && i != m implies (#[trigger] lists@[i])@ == old(lists)@[i]@ by {
            assert(lists_view(lists@)[i] == lists@[i]@);
            assert(lists_view(old(lists)@)[i] == old(lists)@[i]@);
        }
        assert(lists_view(lists@)[m as int] == lists@[m as int]@);
    }
}

/// Round-robin: partition `p` goes to list `p % n`.
fn round_robin_lists(count: usize, n: usize) -> (r: Vec<Vec<usize>>)
    requires
        n > 0,
    ensures
        r@.len() == n,
        forall|i: int| 0 <= i < n ==> is_rr_list((#[trigger] r@[i])@, count as nat, n as nat, i as nat),
{
    let mut lists = empty_lists(n);
    let mut p: usize = 0;
    while p < count
        invariant
            n > 0,
            p <= count,
            lists@.len() == n,
            forall|i: int| 0 <= i < n ==> {
                let l = (#[trigger] lists@[i])@;
                &&& forall|x: int, y: int| 0 <= x < y < l.len() ==> l[x] < l[y]
                &&& forall|x: int| 0 <= x < l.len() ==> (#[trigger] l[x]) < p && l[x] % n == i
                &&& forall|q: usize| q < p && q % n == i ==> l.contains(q)
            },
        decreases count - p,
    {
        let m = p % n;
        let ghost before = lists@;
        push_to(&mut lists, m, p);
        proof {
            assert forall|i: int| 0 <= i < n implies {
                let l = (#[trigger] lists@[i])@;
                &&& forall|x: int, y: int| 0 <= x < y < l.len() ==> l[x] < l[y]
                &&& forall|x: int| 0 <= x < l.len() ==> (#[trigger] l[x]) < p + 1 && l[x] % n == i
                &&& forall|q: usize| q < p + 1 && q % n == i ==> l.contains(q)
            } by {
                if i == m {
                    let l = lists@[i]@;
                    let b = before[i]@;
                    assert(l == b.push(p));
                    assert forall|q: usize| q < p + 1 && q % n == i implies l.contains(q) by {
                        if q < p {
                            assert(b.contains(q));
                            let w = choose|w: int| 0 <= w < b.len() && b[w] == q;
                            assert(l[w] == q);
                        } else {
                            assert(l[b.len() as int] == p);
                        }
                    }
                } else {
                    assert(lists@[i]@ == before[i]@);
                }
            }
        }
        p = p + 1;
    }
    proof {
        assert forall|i: int| 0 <= i < n implies is_rr_list((#[trigger] lists@[i])@, count as nat, n as nat, i as nat) by {
            let l = lists@[i]@;
            assert forall|x: int| 0 <= x < l.len() implies (#[trigger] l[x]) < count && (l[x] as nat) % (n as nat) == i as nat by {}
            assert forall|q: usize| q < count && (q as nat) % (n as nat) == i as nat implies l.contains(q) by {}
        }
    }
    lists
}

/// The start of each range share is the shares before it, at most `count`.
proof fn lemma_range_start(count: nat, n: nat, i: nat)
    requires
        n > 0,
        i <= n,
    ensures
        range_start(count, n, i) == i * (count / n) + (if i < count % n { i } else { count % n }),
        range_start(count, n, i) <= count,
    decreases i,
{
    let q = count / n;
    let r = count % n;
    assert(count == n * q + r) by (nonlinear_arith)
        requires q == count / n, r == count % n, n > 0;
    assert(r < n) by (nonlinear_arith)
        requires r == count % n, n > 0;
    if i > 0 {
        let j = (i - 1) as nat;
        lemma_range_start(count, n, j);
        assert(j * q + q == i * q) by (nonlinear_arith)
            requires j + 1 == i;
        assert(range_start(count, n, i) == range_start(count, n, j) + range_share(count, n, j));
        assert(range_share(count, n, j) == if j < r { q + 1 } else { q });
        assert(range_start(count, n, j) == j * q + (if j < r { j } else { r }));
        assert(range_start(count, n, i) == i * q + (if i < r { i } else { r }));
    } else {
        assert(i * q == 0) by (nonlinear_arith)
            requires i == 0;
    }
    assert(i * q <= n * q) by (nonlinear_arith)
        requires i <= n;
    if i < r {
        assert(i * q + i <= n * q + r);
    }
}

/// Range: consecutive shares, the first `count % n` lists one longer.
fn range_lists(count: usize, n: usize) -> (r: Vec<Vec<usize>>)
    requires
        n > 0,
    ensures
        r@.len() == n,
        forall|i: int| 0 <= i < n ==> (#[trigger] r@[i])@ == range_list(count as nat, n as nat, i as nat),
{
    let mut lists: Vec<Vec<usize>> = Vec::new();
    let per = count / n;
    let extra = count % n;
    let mut current: usize = 0;
    let mut idx: usize = 0;
    while idx < n
        invariant
            n > 0,
            per == count / n,
            extra == count % n,
            idx <= n,
            lists@.len() == idx,
            current == range_start(count as nat, n as nat, idx as nat),
            forall|i: int| 0 <= i < idx ==> (#[trigger] lists@[i])@ == range_list(count as nat, n as nat, i as nat),
        decreases n - idx,
    {
        proof {
            lemma_range_start(count as nat, n as nat, (idx + 1) as nat);
        }
        let c = if idx < extra { per + 1 } else { per };
        let mut l: Vec<usize> = Vec::new();
        let mut k: usize = 0;
        let ghost start = current;
        while k < c
            invariant
                k <= c,
                c == range_share(count as nat, n as nat, idx as nat),
                start + c <= count,
                current == start + k,
                l@ == Seq::new(k as nat, |j: int| (start + j) as usize),
            decreases c - k,
        {
            if current < count {
                l.push(current);
                current = current + 1;
            }
            k = k + 1;
            proof {
                assert(l@ =~= Seq::new(k as nat, |j: int| (start + j) as usize));
            }
        }
        lists.push(l);
        idx = idx + 1;
    }
    lists
}

/// Whether some list holds `p`.
fn holds(lists: &Vec<Vec<usize>>, p: usize) -> (r: bool)
    ensures
        r == held(lists_view(lists@), p),
{
    let ghost lv = lists_view(lists@);
    let mut m: usize = 0;
    while m < lists.len()
        invariant
            lv == lists_view(lists@),
            m <= lists@.len(),
            forall|a: int| 0 <= a < m ==> !(#[trigger] lv[a]).contains(p),
        decreases lists@.len() - m,
    {
        let mut x: usize = 0;
        while x < lists[m].len()
            invariant
                lv == lists_view(lists@),
                m < lists@.len(),
                x <= lists@[m as int]@.len(),
                forall|b: int| 0 <= b < x ==> lists@[m as int]@[b] != p,
            decreases lists@[m as int]@.len() - x,
        {
            if lists[m][x] == p {
                proof {
                    assert(lv[m as int] == lists@[m as int]@);
                    assert(lv[m as int][x as int] == p);
                }
                return true;
            }
            x = x + 1;
        }
        proof {
            assert(lv[m as int] == lists@[m as int]@);
            assert(!lv[m as int].contains(p));
        }
        m = m + 1;
    }
    false
}

/// The partitions below `count` that no list holds, increasing.
fn free_list(lists: &Vec<Vec<usize>>, count: usize) -> (r: Vec<usize>)
    ensures
        r@ == free_partitions(lists_view(lists@), count as nat),
{
    let mut r: Vec<usize> = Vec::new();
    let mut p: usize = 0;
    while p < count
        invariant
            p <= count,
            r@ == free_partitions(lists_view(lists@), p as nat),
        decreases count - p,
    {
        if !holds(lists, p) {
            r.push(p);
        }
        p = p + 1;
    }
    r
}

/// Deal the partitions of `free` out in turn.
fn deal_out(lists: &mut Vec<Vec<usize>>, free: &Vec<usize>)
    requires
        old(lists)@.len() > 0,
    ensures
        final(lists)@.len() == old(lists)@.len(),
        lists_view(final(lists)@) == deal(lists_view(old(lists)@), free@),
{
    let n = lists.len();
    let mut idx: usize = 0;
    while idx < free.len()
        invariant
            n == lists@.len(),
            n == old(lists)@.len(),
            n > 0,
            idx <= free@.len(),
            lists_view(lists@) == deal(lists_view(old(lists)@), free@.take(idx as int)),
        decreases free@.len() - idx,
    {
        let m = idx % n;
        let p = free[idx];
        proof {
            assert(free@.take(idx + 1).drop_last() =~= free@.take(idx as int));
            assert(lists@[m as int]@ == lists_view(lists@)[m as int]);
        }
        push_to(lists, m, p);
        idx = idx + 1;
    }
    proof {
        assert(free@.take(free@.len() as int) =~= free@);
    }
}

/// The first list shorter than `target`.
fn first_under_index(lists: &Vec<Vec<usize>>, target: usize) -> (r: Option<usize>)
    ensures
        r matches Some(u) ==> u < lists@.len(),
        match first_under(lists_view(lists@), target as nat) {
            Some(u) => 0 <= u < lists@.len() && (r matches Some(x) && x as int == u),
            None => r is None,
        },
{
    let ghost lv = lists_view(lists@);
    proof {
        lemma_first_under_range(lv, target as nat);
    }
    let mut m: usize = 0;
    while m < lists.len()
        invariant
            lv == lists_view(lists@),
            m <= lv.len(),
            first_under(lv.take(m as int), target as nat) is None,
        decreases lists@.len() - m,
    {
        proof {
            assert(lv.take(m + 1).drop_last() =~= lv.take(m as int));
            assert(lv[m as int] == lists@[m as int]@);
        }
        if lists[m].len() < target {
            proof {
                lemma_first_under_prefix(lv, m as int, target as nat);
            }
            return Some(m);
        }
        m = m + 1;
    }
    proof {
        assert(lv.take(lv.len() as int) =~= lv);
    }
    None
}

/// The first short list is one of the lists.
proof fn lemma_first_under_range(lv: Seq<Seq<usize>>, target: nat)
    ensures
        first_under(lv, target) matches Some(u) ==> 0 <= u < lv.len(),
    decreases lv.len(),
{
    if lv.len() > 0 {
        lemma_first_under_range(lv.drop_last(), target);
    }
}

/// A first short list found in a prefix is the first overall.
proof fn lemma_first_under_prefix(lv: Seq<Seq<usize>>, m: int, target: nat)
    requires
        0 <= m < lv.len(),
        first_under(lv.take(m), target) is None,
        lv[m].len() < target,
    ensures
        first_under(lv, target) == Some(m),
    decreases lv.len(),
{
    if m == lv.len() - 1 {
        assert(lv.drop_last() =~= lv.take(m));
        assert(lv.last() == lv[m]);
    } else {
        assert(lv.drop_last().take(m) =~= lv.take(m));
        assert(lv.drop_last()[m] == lv[m]);
        lemma_first_under_prefix(lv.drop_last(), m, target);
    }
}

/// Place `p` (see `place_one`).
fn place_one_exec(lists: &mut Vec<Vec<usize>>, p: usize, target: usize, o: usize)
    requires
        o < old(lists)@.len(),
        target < usize::MAX,
    ensures
        final(lists)@.len() == old(lists)@.len(),
        lists_view(final(lists)@) == place_one(lists_view(old(lists)@), p, target as nat, o as int),
{
    let ghost lv = lists_view(lists@);
    match first_under_index(lists, target) {
        Some(u) => {
            push_to(lists, u, p);
            proof {
                assert(lists_view(lists@) == lv.update(u as int, lv[u as int].push(p)));
            }
        },
        None => match first_under_index(lists, target + 1) {
            Some(u) => {
                push_to(lists, u, p);
                proof {
                    assert(lists_view(lists@) == lv.update(u as int, lv[u as int].push(p)));
                }
            },
            None => {
                push_to(lists, o, p);
                proof {
                    assert(lists_view(lists@) == lv.update(o as int, lv[o as int].push(p)));
                }
            },
        },
    }
}

/// Place each partition of `ps` (see `place_all`).
fn place_all_exec(lists: &mut Vec<Vec<usize>>, ps: &Vec<usize>, target: usize, o: usize)
    requires
        o < old(lists)@.len(),
        target < usize::MAX,
    ensures
        final(lists)@.len() == old(lists)@.len(),
        lists_view(final(lists)@) == place_all(lists_view(old(lists)@), ps@, target as nat, o as int),
{
    let mut k: usize = 0;
    while k < ps.len()
        invariant
            o < lists@.len(),
            target < usize::MAX,
            lists@.len() == old(lists)@.len(),
            k <= ps@.len(),
            lists_view(lists@) == place_all(lists_view(old(lists)@), ps@.take(k as int), target as nat, o as int),
        decreases ps@.len() - k,
    {
        proof {
            assert(ps@.take(k + 1).drop_last() =~= ps@.take(k as int));
        }
        place_one_exec(lists, ps[k], target, o);
        k = k + 1;
    }
    proof {
        assert(ps@.take(ps@.len() as int) =~= ps@);
    }
}

/// A copy of a list.
fn copy_list(v: &Vec<usize>, from: usize) -> (r: Vec<usize>)
    requires
        from <= v@.len(),
    ensures
        r@ == v@.skip(from as int),
{
    let mut r: Vec<usize> = Vec::new();
    let mut i: usize = from;
    while i < v.len()
        invariant
            from <= i <= v@.len(),
            r@ == v@.subrange(from as int, i as int),
        decreases v@.len() - i,
    {
        r.push(v[i]);
        i = i + 1;
        proof {
            assert(r@ =~= v@.subrange(from as int, i as int));
        }
    }
    proof {
        assert(v@.subrange(from as int, v@.len() as int) =~= v@.skip(from as int));
    }
    r
}

/// Sticky assignment (see `sticky_lists`).
fn sticky_assign(lists: &mut Vec<Vec<usize>>, count: usize)
    requires
        old(lists)@.len() > 0,
    ensures
        final(lists)@.len() == old(lists)@.len(),
        lists_view(final(lists)@) == sticky_lists(lists_view(old(lists)@), count as nat),
{
    let n = lists.len();
    let free = free_list(lists, count);
    deal_out(lists, &free);
    let ghost dealt = lists_view(lists@);
    let target = count / n;
    let mut o: usize = 0;
    while o < n
        invariant
            n == lists@.len(),
            dealt.len() == n,
            target == count / n,
            o <= n,
            shed_from(lists_view(lists@), n as nat, o as nat, target as nat) == shed_from(dealt, n as nat, 0, target as nat),
        decreases n - o,
    {
        if lists[o].len() > 0 && lists[o].len() - 1 > target {
            let ghost before = lists_view(lists@);
            let excess = copy_list(&lists[o], target + 1);
            let mut l: Vec<usize> = Vec::new();
            lists.set_and_swap(o, &mut l);
            proof {
                assert(l@ == before[o as int]);
            }
            l.truncate(target + 1);
            lists.set(o, l);
            proof {
                assert(lists_view(lists@) =~= before.update(o as int, before[o as int].take((target + 1) as int)));
                assert(excess@ == before[o as int].skip((target + 1) as int));
            }
            place_all_exec(lists, &excess, target, o);
        }
        o = o + 1;
    }
}

// ---------------------------------------------------------------------------
// Members
// ---------------------------------------------------------------------------

/// A member of a consumer group.
#[derive(Debug)]
pub struct ConsumerMember {
    /// Member identifier.
    pub id: String,
    /// The group it belongs to.
    pub group_id: String,
    /// Its assigned partitions.
    pub partitions: Vec<usize>,
    /// Time of its last heartbeat (Unix seconds).
    pub last_heartbeat: u64,
    /// Seconds without heartbeat after which it counts as gone.
    pub session_timeout_secs: u64,
    /// Extra headers, as name and value.
    pub metadata: Vec<(String, String)>,
}

/// The content of a member.
pub struct MemberView {
    pub id: Seq<char>,
    pub group_id: Seq<char>,
    pub partitions: Seq<usize>,
    pub last_heartbeat: u64,
    pub session_timeout_secs: u64,
    pub metadata: Seq<(Seq<char>, Seq<char>)>,
}

impl View for ConsumerMember {
    type V = MemberView;

    open spec fn view(&self) -> MemberView {
        MemberView {
            id: self.id@,
            group_id: self.group_id@,
            partitions: self.partitions@,
            last_heartbeat: self.last_heartbeat,
            session_timeout_secs: self.session_timeout_secs,
            metadata: self.metadata@.map_values(|p: (String, String)| (p.0@, p.1@)),
        }
    }
}

impl Clone for ConsumerMember {
    fn clone(&self) -> (r: Self)
        ensures
            r@ == self@,
    {
        let partitions = copy_list(&self.partitions, 0);
        proof {
            assert(self.partitions@.skip(0) =~= self.partitions@);
        }
        ConsumerMember {
            id: self.id.clone(),
            group_id: self.group_id.clone(),
            partitions,
            last_heartbeat: self.last_heartbeat,
            session_timeout_secs: self.session_timeout_secs,
            metadata: copy_pairs(&self.metadata),
        }
    }
}

/// Seconds from `then` to `now`, 0 when `now` is earlier.
pub open spec fn elapsed(then: u64, now: u64) -> int {
    if now >= then { now - then } else { 0 }
}

impl ConsumerMember {
    /// Whether the member is alive at time `now`: its last heartbeat is less
    /// than its session timeout ago.
    pub open spec fn alive_at(self, now: u64) -> bool {
        elapsed(self.last_heartbeat, now) < self.session_timeout_secs
    }

    /// A member with no partitions and a heartbeat at `now`.
    pub fn new_at(id: String, group_id: String, session_timeout_secs: u64, now: u64) -> (r: Self)
        ensures
            r.id@ == id@,
            r.group_id@ == group_id@,
            r.partitions@.len() == 0,
            r.last_heartbeat == now,
            r.session_timeout_secs == session_timeout_secs,
            r.metadata@.len() == 0,
    {
        ConsumerMember {
            id,
            group_id,
            partitions: Vec::new(),
            last_heartbeat: now,
            session_timeout_secs,
            metadata: Vec::new(),
        }
    }

    /// A member with a fresh identifier and a heartbeat now.
    pub fn new(group_id: String, session_timeout_secs: u64) -> (r: Self)
        ensures
            r.id@.len() == 36,
            r.group_id@ == group_id@,
            r.partitions@.len() == 0,
            r.session_timeout_secs == session_timeout_secs,
            r.metadata@.len() == 0,
    {
        let id = new_uuid_v4();
        let now = unix_time_secs();
        Self::new_at(id, group_id, session_timeout_secs, now)
    }

    /// Whether the member is alive at time `now`.
    pub fn is_alive_at(&self, now: u64) -> (r: bool)
        ensures
            r == self.alive_at(now),
    {
        now.saturating_sub(self.last_heartbeat) < self.session_timeout_secs
    }

    /// Whether the member is alive now.
    pub fn is_alive(&self) -> (r: bool)
        ensures
            exists|now: u64| r == #[trigger] self.alive_at(now),
    {
        let now = unix_time_secs();
        self.is_alive_at(now)
    }

    /// Record a heartbeat at `now`.
    pub fn heartbeat_at(&mut self, now: u64)
        ensures
            *final(self) == (ConsumerMember { last_heartbeat: now, ..*old(self) }),
            final(self)@ == (MemberView { last_heartbeat: now, ..old(self)@ }),
    {
        self.last_heartbeat = now;
    }

    /// Record a heartbeat now.
    pub fn heartbeat(&mut self)
        ensures
            final(self)@ == (MemberView { last_heartbeat: final(self).last_heartbeat, ..old(self)@ }),
    {
        let now = unix_time_secs();
        self.heartbeat_at(now)
    }
}

/// How partitions are spread over the members.
#[derive(Debug, Clone, Copy, PartialEq, Eq, Structural)]
pub enum AssignmentStrategy {
    /// Partition `p` to member `p` modulo the number of members.
    RoundRobin,
    /// Consecutive ranges of partitions, one per member.
    Range,
    /// Keep assignments, spread the rest, even out the load.
    Sticky,
}

impl Default for AssignmentStrategy {
    fn default() -> (r: Self)
        ensures
            r == AssignmentStrategy::RoundRobin,
    {
        AssignmentStrategy::RoundRobin
    }
}

/// Configuration of a consumer group.
#[derive(Debug, Clone, Copy)]
pub struct ConsumerGroupConfig {
    /// Assignment strategy.
    pub strategy: AssignmentStrategy,
    /// Session timeout, in seconds.
    pub session_timeout_secs: u64,
    /// Rebalance timeout, in seconds.
    pub rebalance_timeout_secs: u64,
    /// Whether offsets are committed automatically.
    pub auto_commit: bool,
    /// Interval of automatic commits, in seconds.
    pub auto_commit_interval_secs: u64,
}

impl Default for ConsumerGroupConfig {
    fn default() -> (r: Self)
        ensures
            r.strategy == AssignmentStrategy::RoundRobin,
            r.session_timeout_secs == 30,
            r.rebalance_timeout_secs == 60,
            r.auto_commit,
            r.auto_commit_interval_secs == 5,
    {
        ConsumerGroupConfig {
            strategy: AssignmentStrategy::RoundRobin,
            session_timeout_secs: 30,
            rebalance_timeout_secs: 60,
            auto_commit: true,
            auto_commit_interval_secs: 5,
        }
    }
}

/// The state of a group.
#[derive(Debug, Clone, Copy, PartialEq, Eq, Structural)]
pub enum GroupState {
    /// No members.
    Empty,
    /// Partitions assigned.
    Stable,
    /// Membership changed; partitions are to be reassigned.
    Rebalancing,
    /// Marked for deletion.
    Dead,
}

/// A committed offset of a partition.
#[derive(Debug, Clone)]
pub struct PartitionOffset {
    pub partition_id: usize,
    pub offset: u64,
    pub timestamp: u64,
    pub metadata: String,
}

/// Counters of a group.
#[derive(Debug, Clone)]
pub struct ConsumerGroupStats {
    pub group_id: String,
    pub topic: String,
    pub state: GroupState,
    pub member_count: usize,
    pub generation: u64,
    pub partition_count: usize,
    pub committed_partitions: usize,
    /// Seconds since the last rebalance.
    pub last_rebalance_secs: u64,
}

// ---------------------------------------------------------------------------
// Groups
// ---------------------------------------------------------------------------

/// The state of a consumer group.
pub struct GroupView {
    pub id: Seq<char>,
    pub topic: Seq<char>,
    pub partition_count: usize,
    /// Members, in the order assignment goes through them.
    pub members: Seq<ConsumerMember>,
    pub state: GroupState,
    pub config: ConsumerGroupConfig,
    /// Committed offsets, one per partition.
    pub offsets: Seq<(usize, u64)>,
    /// Time of the last rebalance (Unix seconds).
    pub last_rebalance: u64,
    pub generation: u64,
}

/// Whether no two members share an identifier.
pub open spec fn distinct_ids(ms: Seq<ConsumerMember>) -> bool {
    forall|i: int, j: int| 0 <= i < ms.len() && 0 <= j < ms.len() && i != j ==> (#[trigger] ms[i]).id@ != (#[trigger] ms[j]).id@
}

/// Whether some member has identifier `id`.
pub open spec fn has_member(ms: Seq<ConsumerMember>, id: Seq<char>) -> bool {
    exists|i: int| 0 <= i < ms.len() && (#[trigger] ms[i]).id@ == id
}

/// The position of the member with identifier `id`.
pub open spec fn member_index(ms: Seq<ConsumerMember>, id: Seq<char>) -> int {
    choose|i: int| 0 <= i < ms.len() && (#[trigger] ms[i]).id@ == id
}

/// Whether no two committed offsets are for the same partition.
pub open spec fn distinct_partitions(o: Seq<(usize, u64)>) -> bool {
    forall|i: int, j: int| 0 <= i < o.len() && 0 <= j < o.len() && i != j ==> (#[trigger] o[i]).0 != (#[trigger] o[j]).0
}

/// The committed offset of partition `p`, if any.
pub open spec fn offset_of(o: Seq<(usize, u64)>, p: usize) -> Option<u64> {
    if exists|i: int| 0 <= i < o.len() && (#[trigger] o[i]).0 == p {
        Some(o[choose|i: int| 0 <= i < o.len() && (#[trigger] o[i]).0 == p].1)
    } else {
        None
    }
}

/// The members of `ms` alive at `now`, in order.
pub open spec fn alive_only(ms: Seq<ConsumerMember>, now: u64) -> Seq<ConsumerMember>
    decreases ms.len(),
{
    if ms.len() == 0 {
        ms
    } else if ms.last().alive_at(now) {
        alive_only(ms.drop_last(), now).push(ms.last())
    } else {
        alive_only(ms.drop_last(), now)
    }
}

/// The partition lists of `ms`, in member order.
pub open spec fn member_lists(ms: Seq<ConsumerMember>) -> Seq<Seq<usize>> {
    ms.map_values(|m: ConsumerMember| m.partitions@)
}

/// Whether `after` are the lists that `strategy` makes of `before` for
/// `count` partitions.
pub open spec fn assigned(strategy: AssignmentStrategy, before: Seq<Seq<usize>>, after: Seq<Seq<usize>>, count: usize) -> bool {
    &&& after.len() == before.len()
    &&& match strategy {
        AssignmentStrategy::RoundRobin => forall|i: int| 0 <= i < after.len() ==>
            is_rr_list(#[trigger] after[i], count as nat, after.len(), i as nat),
        AssignmentStrategy::Range => forall|i: int| 0 <= i < after.len() ==>
            #[trigger] after[i] == range_list(count as nat, after.len(), i as nat),
        AssignmentStrategy::Sticky => after == sticky_lists(before, count as nat),
    }
}

/// A list in strictly increasing order holds a partition at most once.
proof fn lemma_occ_in_increasing(l: Seq<usize>, p: usize)
    requires
        forall|x: int, y: int| 0 <= x < y < l.len() ==> l[x] < l[y],
    ensures
        occ_in(l, p) == if l.contains(p) { 1nat } else { 0nat },
    decreases l.len(),
{
    lemma_occ_in_contains(l, p);
    if l.len() > 0 {
        let d = l.drop_last();
        assert forall|x: int, y: int| 0 <= x < y < d.len() implies d[x] < d[y] by {
            assert(d[x] == l[x] && d[y] == l[y]);
        }
        lemma_occ_in_increasing(d, p);
        if l.last() == p && d.contains(p) {
            let x = choose|x: int| 0 <= x < d.len() && d[x] == p;
            assert(l[x] == p && l[l.len() - 1] == p);
        }
        if l.contains(p) && l.last() != p {
            let x = choose|x: int| 0 <= x < l.len() && l[x] == p;
            assert(d[x] == p);
        }
    }
}

/// No list holding `p`: the lists hold it nowhere.
proof fn lemma_occ_none(lists: Seq<Seq<usize>>, p: usize)
    requires
        forall|i: int| 0 <= i < lists.len() ==> !(#[trigger] lists[i]).contains(p),
    ensures
        occ(lists, p) == 0,
    decreases lists.len(),
{
    if lists.len() > 0 {
        let d = lists.drop_last();
        assert forall|i: int| 0 <= i < d.len() implies !(#[trigger] d[i]).contains(p) by {
            assert(d[i] == lists[i]);
        }
        lemma_occ_none(d, p);
        assert(!lists[lists.len() - 1].contains(p));
        lemma_occ_in_contains(lists.last(), p);
    }
}

/// One list holding `p` once, the others not at all: `p` is held once.
proof fn lemma_occ_single(lists: Seq<Seq<usize>>, m: int, p: usize)
    requires
        0 <= m < lists.len(),
        occ_in(lists[m], p) == 1,
        forall|i: int| 0 <= i < lists.len() && i != m ==> !(#[trigger] lists[i]).contains(p),
    ensures
        occ(lists, p) == 1,
    decreases lists.len(),
{
    let d = lists.drop_last();
    if m == lists.len() - 1 {
        assert forall|i: int| 0 <= i < d.len() implies !(#[trigger] d[i]).contains(p) by {
            assert(d[i] == lists[i]);
        }
        lemma_occ_none(d, p);
    } else {
        assert(d[m] == lists[m]);
        assert forall|i: int| 0 <= i < d.len() && i != m implies !(#[trigger] d[i]).contains(p) by {
            assert(d[i] == lists[i]);
        }
        lemma_occ_single(d, m, p);
        assert(!lists[lists.len() - 1].contains(p));
        lemma_occ_in_contains(lists.last(), p);
    }
}

/// The range starts grow with the member index.
proof fn lemma_range_start_mono(count: nat, n: nat, a: nat, b: nat)
    requires
        n > 0,
        a <= b,
    ensures
        range_start(count, n, a) <= range_start(count, n, b),
    decreases b - a,
{
    if a < b {
        lemma_range_start_mono(count, n, a, (b - 1) as nat);
    }
}

/// A partition below `range_start(j)` lies in the share of some member
/// before `j`.
proof fn lemma_range_owner(count: nat, n: nat, j: nat, p: nat)
    requires
        n > 0,
        p < range_start(count, n, j),
    ensures
        exists|i: nat| i < j && #[trigger] range_start(count, n, i) <= p < range_start(count, n, i) + range_share(count, n, i),
    decreases j,
{
    if j > 0 {
        let i = (j - 1) as nat;
        if p >= range_start(count, n, i) {
            assert(range_start(count, n, i) <= p < range_start(count, n, i) + range_share(count, n, i));
        } else {
            lemma_range_owner(count, n, i, p);
        }
    }
}

/// The lists a strategy assigns hold every partition below the count
/// exactly once, and no other partition more often than before (none at
/// all for round-robin and range), when no partition was held twice before.
pub proof fn lemma_assigned_once(strategy: AssignmentStrategy, before: Seq<Seq<usize>>, lists: Seq<Seq<usize>>, count: usize, p: usize)
    requires
        assigned(strategy, before, lists, count),
        lists.len() > 0,
        occ(before, p) <= 1,
    ensures
        p < count ==> occ(lists, p) == 1,
        occ(lists, p) <= 1,
{
    let n = lists.len();
    match strategy {
        AssignmentStrategy::RoundRobin => {
            if p < count {
                lemma_round_robin_exclusive(lists, count as nat, p);
                let m = ((p as nat) % n) as int;
                assert(is_rr_list(lists[m], count as nat, n, m as nat));
                lemma_occ_in_increasing(lists[m], p);
                lemma_occ_single(lists, m, p);
            } else {
                assert forall|i: int| 0 <= i < n implies !(#[trigger] lists[i]).contains(p) by {
                    assert(is_rr_list(lists[i], count as nat, n, i as nat));
                }
                lemma_occ_none(lists, p);
            }
        },
        AssignmentStrategy::Range => {
            if p < count {
                lemma_range_covers(count as nat, n);
                lemma_range_owner(count as nat, n, n, p as nat);
                let m = choose|i: nat| i < n && #[trigger] range_start(count as nat, n, i) <= p
                    < range_start(count as nat, n, i) + range_share(count as nat, n, i);
                let lm = lists[m as int];
                assert(lm == range_list(count as nat, n, m));
                let k = p - range_start(count as nat, n, m);
                assert(lm[k] == p);
                assert forall|x: int, y: int| 0 <= x < y < lm.len() implies lm[x] < lm[y] by {
                    assert(lm[x] == (range_start(count as nat, n, m) + x) as usize);
                    assert(lm[y] == (range_start(count as nat, n, m) + y) as usize);
                    assert(range_start(count as nat, n, m) + lm.len() <= count) by {
                        lemma_range_start_mono(count as nat, n, m + 1, n);
                    }
                }
                lemma_occ_in_increasing(lm, p);
                assert forall|i: int| 0 <= i < n && i != m implies !(#[trigger] lists[i]).contains(p) by {
                    let li = lists[i];
                    assert(li == range_list(count as nat, n, i as nat));
                    if li.contains(p) {
                        let x = choose|x: int| 0 <= x < li.len() && li[x] == p;
                        assert(range_start(count as nat, n, i as nat) + li.len() <= count) by {
                            lemma_range_start_mono(count as nat, n, (i + 1) as nat, n);
                        }
                        assert(li[x] == (range_start(count as nat, n, i as nat) + x) as usize);
                        if i < m {
                            lemma_range_start_mono(count as nat, n, (i + 1) as nat, m);
                        } else {
                            lemma_range_start_mono(count as nat, n, m + 1, i as nat);
                        }
                    }
                }
                lemma_occ_single(lists, m as int, p);
            } else {
                lemma_range_covers(count as nat, n);
                assert forall|i: int| 0 <= i < n implies !(#[trigger] lists[i]).contains(p) by {
                    let li = lists[i];
                    assert(li == range_list(count as nat, n, i as nat));
                    if li.contains(p) {
                        let x = choose|x: int| 0 <= x < li.len() && li[x] == p;
                        assert(range_start(count as nat, n, i as nat) + li.len() <= count) by {
                            lemma_range_start_mono(count as nat, n, (i + 1) as nat, n);
                        }
                        assert(li[x] == (range_start(count as nat, n, i as nat) + x) as usize);
                    }
                }
                lemma_occ_none(lists, p);
            }
        },
        AssignmentStrategy::Sticky => {
            lemma_sticky_exactly_once(before, count as nat, p);
        },
    }
}

/// Keeping the alive members holds no partition more often.
proof fn lemma_occ_alive(ms: Seq<ConsumerMember>, now: u64, p: usize)
    ensures
        occ(member_lists(alive_only(ms, now)), p) <= occ(member_lists(ms), p),
    decreases ms.len(),
{
    if ms.len() > 0 {
        let d = ms.drop_last();
        lemma_occ_alive(d, now, p);
        assert(member_lists(ms).drop_last() =~= member_lists(d));
        assert(member_lists(ms).last() == ms.last().partitions@);
        if ms.last().alive_at(now) {
            let a = alive_only(d, now);
            assert(member_lists(a.push(ms.last())).drop_last() =~= member_lists(a));
            assert(member_lists(a.push(ms.last())).last() == ms.last().partitions@);
        }
    }
}

/// Taking out one list holds no partition more often.
proof fn lemma_occ_remove(lists: Seq<Seq<usize>>, i: int, p: usize)
    requires
        0 <= i < lists.len(),
    ensures
        occ(lists.remove(i), p) + occ_in(lists[i], p) == occ(lists, p),
    decreases lists.len(),
{
    let d = lists.drop_last();
    if i == lists.len() - 1 {
        assert(lists.remove(i) =~= d);
    } else {
        lemma_occ_remove(d, i, p);
        assert(lists.remove(i).drop_last() =~= d.remove(i));
        assert(lists.remove(i).last() == lists.last());
    }
}

/// After a rebalance that leaves members, every partition is held by
/// exactly one of them once.
pub proof fn lemma_rebalance_holds_each_once(g: GroupView, after: GroupView, now: u64, p: usize)
    requires
        g.wf(),
        g.rebalanced_to(after, now),
        alive_only(g.members, now).len() > 0,
        p < g.partition_count,
    ensures
        occ(member_lists(after.members), p) == 1,
{
    lemma_occ_alive(g.members, now, p);
    lemma_assigned_once(g.config.strategy, member_lists(alive_only(g.members, now)), member_lists(after.members),
        g.partition_count, p);
}

impl GroupView {
    /// Whether `after` is this group once member `m` joined: it replaces the
    /// member of its identifier, or else comes last; the group starts
    /// rebalancing and nothing else changes.
    pub open spec fn joined(self, after: GroupView, m: MemberView) -> bool {
        &&& after == (GroupView { members: after.members, state: GroupState::Rebalancing, ..self })
        &&& if has_member(self.members, m.id) {
            let w = member_index(self.members, m.id);
            &&& after.members.len() == self.members.len()
            &&& after.members[w]@ == m
            &&& forall|j: int| 0 <= j < self.members.len() && j != w ==> #[trigger] after.members[j] == self.members[j]
        } else {
            &&& after.members.drop_last() == self.members
            &&& after.members.len() == self.members.len() + 1
            &&& after.members.last()@ == m
        }
    }

    /// The invariant: member identifiers and committed partitions distinct,
    /// and no partition held twice among the members.
    pub open spec fn wf(self) -> bool {
        &&& distinct_ids(self.members)
        &&& distinct_partitions(self.offsets)
        &&& forall|p: usize| #[trigger] occ(member_lists(self.members), p) <= 1
    }

    /// Whether a rebalance is due at `now`: some member's session ran out,
    /// or the group is rebalancing.
    pub open spec fn rebalance_due(self, now: u64) -> bool {
        (exists|i: int| 0 <= i < self.members.len() && !(#[trigger] self.members[i]).alive_at(now))
            || self.state == GroupState::Rebalancing
    }

    /// Whether `after` is this group rebalanced at `now`: members whose
    /// session ran out leave; with none left the group is empty, else each
    /// remaining member gets the partitions the strategy gives it and the
    /// group is stable. Either way the generation advances.
    pub open spec fn rebalanced_to(self, after: GroupView, now: u64) -> bool {
        let alive = alive_only(self.members, now);
        &&& after.id == self.id
        &&& after.topic == self.topic
        &&& after.partition_count == self.partition_count
        &&& after.config == self.config
        &&& after.offsets == self.offsets
        &&& after.generation == self.generation + 1
        &&& after.members.len() == alive.len()
        &&& if alive.len() == 0 {
            &&& after.state == GroupState::Empty
            &&& after.last_rebalance == self.last_rebalance
        } else {
            &&& after.state == GroupState::Stable
            &&& after.last_rebalance == now
            &&& forall|i: int| 0 <= i < alive.len() ==>
                (#[trigger] after.members[i])@ == (MemberView { partitions: after.members[i].partitions@, ..alive[i]@ })
            &&& assigned(self.config.strategy, member_lists(alive), member_lists(after.members), self.partition_count)
        }
    }
}

/// Every member kept by `alive_only` is alive at `now`.
proof fn lemma_alive_only_alive(ms: Seq<ConsumerMember>, now: u64)
    ensures
        forall|i: int| 0 <= i < alive_only(ms, now).len() ==> (#[trigger] alive_only(ms, now)[i]).alive_at(now),
    decreases ms.len(),
{
    if ms.len() > 0 {
        lemma_alive_only_alive(ms.drop_last(), now);
        let prev = alive_only(ms.drop_last(), now);
        if ms.last().alive_at(now) {
            assert forall|i: int| 0 <= i < alive_only(ms, now).len() implies (#[trigger] alive_only(ms, now)[i]).alive_at(now) by {
                if i < prev.len() {
                    assert(alive_only(ms, now)[i] == prev[i]);
                }
            }
        }
    }
}

/// A join leaves the group due for a rebalance, and so does a leave; a
/// rebalance at `now` leaves it not due at that time, since every member
/// it keeps is alive then.
pub proof fn lemma_rebalance_due_cycle(before: GroupView, after: GroupView, m: MemberView, gone: Seq<char>, now: u64)
    ensures
        before.joined(after, m) ==> after.rebalance_due(now),
        has_member(before.members, gone)
            && after.members == before.members.remove(member_index(before.members, gone))
            && after.state == GroupState::Rebalancing ==> after.rebalance_due(now),
        before.rebalanced_to(after, now) ==> !after.rebalance_due(now),
{
    if before.rebalanced_to(after, now) {
        let alive = alive_only(before.members, now);
        lemma_alive_only_alive(before.members, now);
        assert forall|i: int| 0 <= i < after.members.len() implies (#[trigger] after.members[i]).alive_at(now) by {
            assert(alive[i].alive_at(now));
            assert(after.members[i]@ == (MemberView { partitions: after.members[i].partitions@, ..alive[i]@ }));
        }
    }
}

/// Keeping the alive members keeps identifiers distinct.
proof fn lemma_alive_only(ms: Seq<ConsumerMember>, now: u64)
    requires
        distinct_ids(ms),
    ensures
        distinct_ids(alive_only(ms, now)),
        forall|i: int| 0 <= i < alive_only(ms, now).len() ==> has_member(ms, (#[trigger] alive_only(ms, now)[i]).id@),
    decreases ms.len(),
{
    if ms.len() > 0 {
        let d = ms.drop_last();
        assert(distinct_ids(d)) by {
            assert forall|i: int, j: int| 0 <= i < d.len() && 0 <= j < d.len() && i != j implies (#[trigger] d[i]).id@ != (#[trigger] d[j]).id@ by {
                assert(d[i] == ms[i] && d[j] == ms[j]);
            }
        }
        lemma_alive_only(d, now);
        let a = alive_only(d, now);
        assert forall|i: int| 0 <= i < a.len() implies has_member(ms, (#[trigger] a[i]).id@) by {
            let w = choose|w: int| 0 <= w < d.len() && (#[trigger] d[w]).id@ == a[i].id@;
            assert(ms[w] == d[w]);
        }
        if ms.last().alive_at(now) {
            let r = alive_only(ms, now);
            assert(r == a.push(ms.last()));
            assert forall|i: int| 0 <= i < a.len() implies (#[trigger] a[i]).id@ != ms.last().id@ by {
                let w = choose|w: int| 0 <= w < d.len() && (#[trigger] d[w]).id@ == a[i].id@;
                assert(ms[w] == d[w]);
                assert(ms[w].id@ != ms[ms.len() - 1].id@);
            }
            assert forall|i: int| 0 <= i < r.len() implies has_member(ms, (#[trigger] r[i]).id@) by {
                if i == a.len() {
                    assert(ms[ms.len() - 1] == r[i]);
                } else {
                    assert(r[i] == a[i]);
                }
            }
        }
    }
}

/// Keep the members alive at `now`, in order.
fn keep_alive(ms: &mut Vec<ConsumerMember>, now: u64)
    ensures
        final(ms)@ == alive_only(old(ms)@, now),
{
    let ghost orig = ms@;
    let ghost mut k: int = 0;
    let mut i: usize = 0;
    proof {
        assert(orig.take(0) =~= Seq::<ConsumerMember>::empty());
        assert(ms@ =~= alive_only(orig.take(0), now) + orig.skip(0));
    }
    while i < ms.len()
        invariant
            0 <= k <= orig.len(),
            i == alive_only(orig.take(k), now).len(),
            ms@ == alive_only(orig.take(k), now) + orig.skip(k),
        decreases orig.len() - k,
    {
        proof {
            assert(ms@[i as int] == orig[k]);
            assert(orig.take(k + 1).drop_last() =~= orig.take(k));
            assert(orig.take(k + 1).last() == orig[k]);
        }
        if ms[i].is_alive_at(now) {
            i = i + 1;
        } else {
            let _gone = ms.remove(i);
        }
        proof {
            assert(ms@ =~= alive_only(orig.take(k + 1), now) + orig.skip(k + 1));
            k = k + 1;
        }
    }
    proof {
        assert(orig.take(k) =~= orig);
        assert(ms@ =~= alive_only(orig, now));
    }
}

/// The partition lists of the members.
fn lists_of(ms: &Vec<ConsumerMember>) -> (r: Vec<Vec<usize>>)
    ensures
        lists_view(r@) == member_lists(ms@),
        r@.len() == ms@.len(),
{
    let mut r: Vec<Vec<usize>> = Vec::new();
    let mut i: usize = 0;
    while i < ms.len()
        invariant
            i <= ms@.len(),
            r@.len() == i,
            forall|j: int| 0 <= j < i ==> (#[trigger] r@[j])@ == ms@[j].partitions@,
        decreases ms@.len() - i,
    {
        let l = copy_list(&ms[i].partitions, 0);
        proof {
            assert(ms@[i as int].partitions@.skip(0) =~= ms@[i as int].partitions@);
        }
        r.push(l);
        i = i + 1;
    }
    proof {
        assert(lists_view(r@) =~= member_lists(ms@));
    }
    r
}

/// Give member `i` the list `lists[i]`.
fn install_lists(ms: &mut Vec<ConsumerMember>, lists: Vec<Vec<usize>>)
    requires
        lists@.len() == old(ms)@.len(),
    ensures
        final(ms)@.len() == old(ms)@.len(),
        forall|i: int| 0 <= i < old(ms)@.len() ==>
            (#[trigger] final(ms)@[i])@ == (MemberView { partitions: lists@[i]@, ..old(ms)@[i]@ })
            && final(ms)@[i].id == old(ms)@[i].id,
{
    let mut lists = lists;
    let ghost ls = lists@;
    let mut i: usize = 0;
    while i < ms.len()
        invariant
            ls.len() == old(ms)@.len(),
            lists@.len() == ls.len(),
            ms@.len() == old(ms)@.len(),
            i <= ms@.len(),
            forall|j: int| i <= j < ls.len() ==> (#[trigger] lists@[j]) == ls[j],
            forall|j: int| i <= j < ms@.len() ==> (#[trigger] ms@[j]) == old(ms)@[j],
            forall|j: int| 0 <= j < i ==>
                (#[trigger] ms@[j])@ == (MemberView { partitions: ls[j]@, ..old(ms)@[j]@ })
                && ms@[j].id == old(ms)@[j].id,
        decreases ms@.len() - i,
    {
        let mut l: Vec<usize> = Vec::new();
        lists.set_and_swap(i, &mut l);
        let mut m = ConsumerMember {
            id: String::new(),
            group_id: String::new(),
            partitions: Vec::new(),
            last_heartbeat: 0,
            session_timeout_secs: 0,
            metadata: Vec::new(),
        };
        ms.set_and_swap(i, &mut m);
        m.partitions = l;
        ms.set(i, m);
        i = i + 1;
    }
}

/// A group of consumers sharing the partitions of a topic.
pub struct ConsumerGroup {
    id: String,
    topic: String,
    partition_count: usize,
    members: Vec<ConsumerMember>,
    state: GroupState,
    config: ConsumerGroupConfig,
    committed_offsets: Vec<(usize, u64)>,
    last_rebalance: u64,
    generation: u64,
}

impl View for ConsumerGroup {
    type V = GroupView;

    closed spec fn view(&self) -> GroupView {
        GroupView {
            id: self.id@,
            topic: self.topic@,
            partition_count: self.partition_count,
            members: self.members@,
            state: self.state,
            config: self.config,
            offsets: self.committed_offsets@,
            last_rebalance: self.last_rebalance,
            generation: self.generation,
        }
    }
}

/// The message for a member missing from the group.
pub open spec fn missing_member_message(id: Seq<char>) -> Seq<char> {
    "Member "@ + id + " not found in group"@
}

impl ConsumerGroup {
    /// An empty group, last rebalanced at `now`.
    pub fn new_at(id: String, topic: String, partition_count: usize, config: ConsumerGroupConfig, now: u64) -> (r: Self)
        ensures
            r@.wf(),
            r@.id == id@ && r@.topic == topic@,
            r@.partition_count == partition_count,
            r@.members.len() == 0,
            r@.state == GroupState::Empty,
            r@.config == config,
            r@.offsets.len() == 0,
            r@.last_rebalance == now,
            r@.generation == 0,
    {
        ConsumerGroup {
            id,
            topic,
            partition_count,
            members: Vec::new(),
            state: GroupState::Empty,
            config,
            committed_offsets: Vec::new(),
            last_rebalance: now,
            generation: 0,
        }
    }

    /// An empty group, last rebalanced now.
    pub fn new(id: String, topic: String, partition_count: usize, config: ConsumerGroupConfig) -> (r: Self)
        ensures
            r@.wf(),
            r@.id == id@ && r@.topic == topic@,
            r@.partition_count == partition_count,
            r@.members.len() == 0,
            r@.state == GroupState::Empty,
            r@.config == config,
            r@.offsets.len() == 0,
            r@.generation == 0,
    {
        let now = unix_time_secs();
        Self::new_at(id, topic, partition_count, config, now)
    }

    /// The position of the member `member_id`.
    fn position(&self, member_id: &str) -> (r: Option<usize>)
        requires
            self@.wf(),
        ensures
            match r {
                Some(i) => i < self@.members.len() && self@.members[i as int].id@ == member_id@
                    && member_index(self@.members, member_id@) == i,
                None => !has_member(self@.members, member_id@),
            },
    {
        let mut i: usize = 0;
        while i < self.members.len()
            invariant
                self@.wf(),
                i <= self.members@.len(),
                forall|j: int| 0 <= j < i ==> (#[trigger] self.members@[j]).id@ != member_id@,
            decreases self.members@.len() - i,
        {
            if same_text(self.members[i].id.as_str(), member_id) {
                proof {
                    let w = member_index(self@.members, member_id@);
                    assert(self@.members[i as int].id@ == member_id@);
                    if w != i {
                        assert(self@.members[w].id@ != self@.members[i as int].id@);
                    }
                }
                return Some(i);
            }
            i = i + 1;
        }
        None
    }

    /// Add a member `member_id` with a heartbeat at `now` (replacing one of
    /// the same identifier); the group starts rebalancing. Answers a copy.
    pub fn join_at(&mut self, member_id: String, session_timeout_secs: u64, now: u64) -> (r: ConsumerMember)
        requires
            old(self)@.wf(),
        ensures
            final(self)@.wf(),
            r.id@ == member_id@,
            r.group_id@ == old(self)@.id,
            r.partitions@.len() == 0,
            r.last_heartbeat == now,
            r.session_timeout_secs == session_timeout_secs,
            r.metadata@.len() == 0,
            final(self)@.state == GroupState::Rebalancing,
            has_member(old(self)@.members, member_id@) ==> {
                let w = member_index(old(self)@.members, member_id@);
                &&& final(self)@.members.len() == old(self)@.members.len()
                &&& final(self)@.members[w]@ == r@
                &&& forall|j: int| 0 <= j < old(self)@.members.len() && j != w ==>
                    #[trigger] final(self)@.members[j] == old(self)@.members[j]
            },
            !has_member(old(self)@.members, member_id@) ==> {
                &&& final(self)@.members.drop_last() == old(self)@.members
                &&& final(self)@.members.len() == old(self)@.members.len() + 1
                &&& final(self)@.members.last()@ == r@
            },
            final(self)@ == (GroupView { members: final(self)@.members, state: GroupState::Rebalancing, ..old(self)@ }),
    {
        let member = ConsumerMember::new_at(member_id, self.id.clone(), session_timeout_secs, now);
        let out = member.clone();
        let ghost ol = member_lists(old(self)@.members);
        match self.position(member.id.as_str()) {
            Some(i) => {
                let ghost mem = member;
                self.members.set(i, member);
                proof {
                    assert(self@.members[i as int] == mem);
                    assert(mem.partitions@ =~= Seq::<usize>::empty());
                    assert(self@.members == old(self)@.members.update(i as int, mem));
                    let nl = member_lists(self@.members);
                    assert(nl =~= ol.update(i as int, Seq::<usize>::empty()));
                    assert forall|p: usize| #[trigger] occ(member_lists(self@.members), p) <= 1 by {
                        lemma_occ_update(ol, i as int, Seq::<usize>::empty(), p);
                        assert(old(self)@.wf());
                        assert(occ(ol, p) <= 1);
                    }
                    assert forall|a: int, b: int| 0 <= a < self@.members.len() && 0 <= b < self@.members.len() && a != b
                        implies (#[trigger] self@.members[a]).id@ != (#[trigger] self@.members[b]).id@ by {
                        if a != i && b != i {
                            assert(old(self)@.members[a].id@ != old(self)@.members[b].id@);
                        } else if a == i {
                            assert(old(self)@.members[b].id@ != old(self)@.members[i as int].id@);
                        } else {
                            assert(old(self)@.members[a].id@ != old(self)@.members[i as int].id@);
                        }
                    }
                }
            },
            None => {
                self.members.push(member);
                proof {
                    let nl = member_lists(self@.members);
                    assert(nl.drop_last() =~= ol);
                    assert(nl.last() == self@.members.last().partitions@);
                    assert forall|p: usize| #[trigger] occ(member_lists(self@.members), p) <= 1 by {
                        assert(occ(ol, p) <= 1);
                    }
                    assert forall|a: int, b: int| 0 <= a < self@.members.len() && 0 <= b < self@.members.len() && a != b
                        implies (#[trigger] self@.members[a]).id@ != (#[trigger] self@.members[b]).id@ by {
                        let n = old(self)@.members.len() as int;
                        if a < n && b < n {
                            assert(old(self)@.members[a].id@ != old(self)@.members[b].id@);
                        } else if a == n {
                            assert(self@.members[b] == old(self)@.members[b]);
                        } else {
                            assert(self@.members[a] == old(self)@.members[a]);
                        }
                    }
                }
            },
        }
        self.state = GroupState::Rebalancing;
        proof {
            assert(out@ == member@);
            assert(out@.metadata.len() == out.metadata@.len());
            assert(member@.metadata.len() == member.metadata@.len());
        }
        out
    }

    /// Add a member with a fresh identifier and a heartbeat now.
    pub fn join(&mut self, session_timeout_secs: u64) -> (r: ConsumerMember)
        requires
            old(self)@.wf(),
        ensures
            final(self)@.wf(),
            r.id@.len() == 36,
            r.group_id@ == old(self)@.id,
            r.partitions@.len() == 0,
            r.session_timeout_secs == session_timeout_secs,
            r.metadata@.len() == 0,
            final(self)@.state == GroupState::Rebalancing,
            has_member(final(self)@.members, r.id@),
            has_member(old(self)@.members, r.id@) ==> {
                let w = member_index(old(self)@.members, r.id@);
                &&& final(self)@.members.len() == old(self)@.members.len()
                &&& final(self)@.members[w]@ == r@
                &&& forall|j: int| 0 <= j < old(self)@.members.len() && j != w ==>
                    #[trigger] final(self)@.members[j] == old(self)@.members[j]
            },
            !has_member(old(self)@.members, r.id@) ==> {
                &&& final(self)@.members.drop_last() == old(self)@.members
                &&& final(self)@.members.len() == old(self)@.members.len() + 1
                &&& final(self)@.members.last()@ == r@
            },
            final(self)@ == (GroupView { members: final(self)@.members, state: GroupState::Rebalancing, ..old(self)@ }),
            old(self)@.joined(final(self)@, r@),
    {
        let id = new_uuid_v4();
        let now = unix_time_secs();
        let r = self.join_at(id, session_timeout_secs, now);
        proof {
            if has_member(old(self)@.members, r.id@) {
                let w = member_index(old(self)@.members, r.id@);
                assert(self@.members[w].id@ == r.id@);
            } else {
                assert(self@.members[old(self)@.members.len() as int].id@ == r.id@);
            }
        }
        r
    }

    /// Remove the member `member_id`; the group starts rebalancing. An
    /// unknown member is an error naming it.
    pub fn leave(&mut self, member_id: &str) -> (r: Result<(), String>)
        requires
            old(self)@.wf(),
        ensures
            final(self)@.wf(),
            has_member(old(self)@.members, member_id@) ==> r is Ok
                && final(self)@.members == old(self)@.members.remove(member_index(old(self)@.members, member_id@))
                && final(self)@.state == GroupState::Rebalancing,
            !has_member(old(self)@.members, member_id@) ==> (r matches Err(m) && m@ == missing_member_message(member_id@))
                && final(self)@ == old(self)@,
            final(self)@ == (GroupView { members: final(self)@.members, state: final(self)@.state, ..old(self)@ }),
    {
        match self.position(member_id) {
            Some(i) => {
                let _gone = self.members.remove(i);
                self.state = GroupState::Rebalancing;
                proof {
                    let ol = member_lists(old(self)@.members);
                    assert(member_lists(self@.members) =~= ol.remove(i as int));
                    assert forall|p: usize| #[trigger] occ(member_lists(self@.members), p) <= 1 by {
                        lemma_occ_remove(ol, i as int, p);
                        assert(occ(ol, p) <= 1);
                    }
                    assert forall|a: int, b: int| 0 <= a < self@.members.len() && 0 <= b < self@.members.len() && a != b
                        implies (#[trigger] self@.members[a]).id@ != (#[trigger] self@.members[b]).id@ by {
                        let a2 = if a < i { a } else { a + 1 };
                        let b2 = if b < i { b } else { b + 1 };
                        assert(self@.members[a] == old(self)@.members[a2]);
                        assert(self@.members[b] == old(self)@.members[b2]);
                    }
                }
                Ok(())
            },
            None => {
                let head = concat("Member ", member_id);
                Err(concat(head.as_str(), " not found in group"))
            },
        }
    }

    /// Record a heartbeat of `member_id` at `now`; an unknown member is an
    /// error naming it.
    pub fn heartbeat_at(&mut self, member_id: &str, now: u64) -> (r: Result<(), String>)
        requires
            old(self)@.wf(),
        ensures
            final(self)@.wf(),
            has_member(old(self)@.members, member_id@) ==> r is Ok && {
                let w = member_index(old(self)@.members, member_id@);
                &&& final(self)@.members.len() == old(self)@.members.len()
                &&& final(self)@.members[w]@ == (MemberView { last_heartbeat: now, ..old(self)@.members[w]@ })
                &&& final(self)@.members[w].id == old(self)@.members[w].id
                &&& forall|j: int| 0 <= j < old(self)@.members.len() && j != w ==>
                    #[trigger] final(self)@.members[j] == old(self)@.members[j]
            },
            !has_member(old(self)@.members, member_id@) ==> (r matches Err(m) && m@ == missing_member_message(member_id@))
                && final(self)@.members == old(self)@.members,
            final(self)@ == (GroupView { members: final(self)@.members, ..old(self)@ }),
    {
        match self.position(member_id) {
            Some(i) => {
                let mut m = ConsumerMember {
                    id: String::new(),
                    group_id: String::new(),
                    partitions: Vec::new(),
                    last_heartbeat: 0,
                    session_timeout_secs: 0,
                    metadata: Vec::new(),
                };
                self.members.set_and_swap(i, &mut m);
                let ghost before = m;
                m.heartbeat_at(now);
                self.members.set(i, m);
                proof {
                    assert(before == old(self)@.members[i as int]);
                    assert(self@.members == old(self)@.members.update(i as int, m));
                    assert forall|a: int, b: int| 0 <= a < self@.members.len() && 0 <= b < self@.members.len() && a != b
                        implies (#[trigger] self@.members[a]).id@ != (#[trigger] self@.members[b]).id@ by {
                        assert(old(self)@.members[a].id@ != old(self)@.members[b].id@);
                    }
                    assert(m.partitions@ == before.partitions@);
                    assert(member_lists(self@.members) =~= member_lists(old(self)@.members));
                }
                Ok(())
            },
            None => {
                let head = concat("Member ", member_id);
                Err(concat(head.as_str(), " not found in group"))
            },
        }
    }

    /// Record a heartbeat of `member_id` now.
    pub fn heartbeat(&mut self, member_id: &str) -> (r: Result<(), String>)
        requires
            old(self)@.wf(),
        ensures
            final(self)@.wf(),
            has_member(old(self)@.members, member_id@) <==> r is Ok,
            !has_member(old(self)@.members, member_id@) ==> (r matches Err(m) && m@ == missing_member_message(member_id@))
                && final(self)@.members == old(self)@.members,
            final(self)@.members.len() == old(self)@.members.len(),
            final(self)@.state == old(self)@.state,
    {
        let now = unix_time_secs();
        self.heartbeat_at(member_id, now)
    }

    /// Rebalance at `now` (see `GroupView::rebalanced_to`).
    pub fn rebalance_at(&mut self, now: u64) -> (r: Result<(), String>)
        requires
            old(self)@.wf(),
            old(self)@.generation < u64::MAX,
        ensures
            r is Ok,
            final(self)@.wf(),
            old(self)@.rebalanced_to(final(self)@, now),
    {
        keep_alive(&mut self.members, now);
        proof {
            lemma_alive_only(old(self)@.members, now);
            assert forall|p: usize| #[trigger] occ(member_lists(self@.members), p) <= 1 by {
                lemma_occ_alive(old(self)@.members, now, p);
            }
        }
        if self.members.len() == 0 {
            self.state = GroupState::Empty;
            self.generation = self.generation + 1;
            return Ok(());
        }
        self.state = GroupState::Rebalancing;
        let n = self.members.len();
        let ghost alive = self.members@;
        proof {
            assert(alive == alive_only(old(self)@.members, now));
            assert forall|p: usize| #[trigger] occ(member_lists(alive), p) <= 1 by {
                lemma_occ_alive(old(self)@.members, now, p);
            }
        }
        let lists = match self.config.strategy {
            AssignmentStrategy::RoundRobin => round_robin_lists(self.partition_count, n),
            AssignmentStrategy::Range => range_lists(self.partition_count, n),
            AssignmentStrategy::Sticky => {
                let mut l = lists_of(&self.members);
                sticky_assign(&mut l, self.partition_count);
                l
            },
        };
        let ghost ls = lists@;
        install_lists(&mut self.members, lists);
        self.state = GroupState::Stable;
        self.last_rebalance = now;
        self.generation = self.generation + 1;
        proof {
            assert(member_lists(self@.members) =~= lists_view(ls));
            assert forall|a: int, b: int| 0 <= a < self@.members.len() && 0 <= b < self@.members.len() && a != b
                implies (#[trigger] self@.members[a]).id@ != (#[trigger] self@.members[b]).id@ by {
                assert(alive[a].id@ != alive[b].id@);
            }
            assert forall|i: int| 0 <= i < alive.len() implies
                (#[trigger] self@.members[i])@ == (MemberView { partitions: self@.members[i].partitions@, ..alive[i]@ }) by {}
            match self.config.strategy {
                AssignmentStrategy::RoundRobin => {
                    assert forall|i: int| 0 <= i < ls.len() implies
                        is_rr_list(#[trigger] lists_view(ls)[i], self.partition_count as nat, ls.len(), i as nat) by {
                        assert(lists_view(ls)[i] == ls[i]@);
                    }
                },
                AssignmentStrategy::Range => {
                    assert forall|i: int| 0 <= i < ls.len() implies
                        #[trigger] lists_view(ls)[i] == range_list(self.partition_count as nat, ls.len(), i as nat) by {
                        assert(lists_view(ls)[i] == ls[i]@);
                    }
                },
                AssignmentStrategy::Sticky => {},
            }
            assert(assigned(self.config.strategy, member_lists(alive), member_lists(self@.members), self.partition_count));
            assert forall|p: usize| #[trigger] occ(member_lists(self@.members), p) <= 1 by {
                lemma_assigned_once(self.config.strategy, member_lists(alive), member_lists(self@.members),
                    self.partition_count, p);
            }
        }
        Ok(())
    }

    /// Rebalance now.
    pub fn rebalance(&mut self) -> (r: Result<(), String>)
        requires
            old(self)@.wf(),
            old(self)@.generation < u64::MAX,
        ensures
            r is Ok,
            final(self)@.wf(),
            exists|now: u64| #[trigger] old(self)@.rebalanced_to(final(self)@, now),
    {
        let now = unix_time_secs();
        self.rebalance_at(now)
    }

    /// The partitions of member `member_id`; an unknown member is an error
    /// naming it.
    pub fn get_assignment(&self, member_id: &str) -> (r: Result<Vec<usize>, String>)
        requires
            self@.wf(),
        ensures
            has_member(self@.members, member_id@) ==> (r matches Ok(v)
                && v@ == self@.members[member_index(self@.members, member_id@)].partitions@),
            !has_member(self@.members, member_id@) ==> (r matches Err(m)
                && m@ == "Member "@ + member_id@ + " not found"@),
    {
        match self.position(member_id) {
            Some(i) => {
                let v = copy_list(&self.members[i].partitions, 0);
                proof {
                    assert(self.members@[i as int].partitions@.skip(0) =~= self.members@[i as int].partitions@);
                }
                Ok(v)
            },
            None => {
                let head = concat("Member ", member_id);
                Err(concat(head.as_str(), " not found"))
            },
        }
    }

    /// Commit `offset` for partition `partition_id`.
    pub fn commit_offset(&mut self, partition_id: usize, offset: u64)
        requires
            old(self)@.wf(),
        ensures
            final(self)@.wf(),
            offset_of(final(self)@.offsets, partition_id) == Some(offset),
            forall|p: usize| p != partition_id ==> #[trigger] offset_of(final(self)@.offsets, p) == offset_of(old(self)@.offsets, p),
            final(self)@ == (GroupView { offsets: final(self)@.offsets, ..old(self)@ }),
    {
        let ghost o = self.committed_offsets@;
        let mut i: usize = 0;
        while i < self.committed_offsets.len()
            invariant
                o == self.committed_offsets@,
                o == old(self)@.offsets,
                self@ == old(self)@,
                old(self)@.wf(),
                i <= o.len(),
                forall|j: int| 0 <= j < i ==> (#[trigger] o[j]).0 != partition_id,
            decreases o.len() - i,
        {
            if self.committed_offsets[i].0 == partition_id {
                self.committed_offsets.set(i, (partition_id, offset));
                proof {
                    let n = self.committed_offsets@;
                    assert(n == o.update(i as int, (partition_id, offset)));
                    assert forall|a: int, b: int| 0 <= a < n.len() && 0 <= b < n.len() && a != b
                        implies (#[trigger] n[a]).0 != (#[trigger] n[b]).0 by {
                        assert(o[a].0 != o[b].0);
                    }
                    assert(n[i as int].0 == partition_id);
                    let w = choose|w: int| 0 <= w < n.len() && (#[trigger] n[w]).0 == partition_id;
                    assert(w == i);
                    assert forall|p: usize| p != partition_id implies #[trigger] offset_of(n, p) == offset_of(o, p) by {
                        if exists|x: int| 0 <= x < o.len() && (#[trigger] o[x]).0 == p {
                            let x = choose|x: int| 0 <= x < o.len() && (#[trigger] o[x]).0 == p;
                            assert(n[x] == o[x]);
                            let y = choose|y: int| 0 <= y < n.len() && (#[trigger] n[y]).0 == p;
                            assert(y == x);
                        } else {
                            assert forall|x: int| 0 <= x < n.len() implies (#[trigger] n[x]).0 != p by {
                                if x != i {
                                    assert(n[x] == o[x]);
                                }
                            }
                        }
                    }
                }
                return;
            }
            i = i + 1;
        }
        self.committed_offsets.push((partition_id, offset));
        proof {
            let n = self.committed_offsets@;
            assert forall|a: int, b: int| 0 <= a < n.len() && 0 <= b < n.len() && a != b
                implies (#[trigger] n[a]).0 != (#[trigger] n[b]).0 by {
                if a < o.len() && b < o.len() {
                    assert(o[a].0 != o[b].0);
                }
            }
            assert(n[o.len() as int].0 == partition_id);
            let w = choose|w: int| 0 <= w < n.len() && (#[trigger] n[w]).0 == partition_id;
            assert(w == o.len());
            assert forall|p: usize| p != partition_id implies #[trigger] offset_of(n, p) == offset_of(o, p) by {
                if exists|x: int| 0 <= x < o.len() && (#[trigger] o[x]).0 == p {
                    let x = choose|x: int| 0 <= x < o.len() && (#[trigger] o[x]).0 == p;
                    assert(n[x] == o[x]);
                    let y = choose|y: int| 0 <= y < n.len() && (#[trigger] n[y]).0 == p;
                    assert(y == x);
                } else {
                    assert forall|x: int| 0 <= x < n.len() implies (#[trigger] n[x]).0 != p by {
                        if x < o.len() {
                            assert(n[x] == o[x]);
                        }
                    }
                }
            }
        }
    }

    /// The committed offset of partition `partition_id`.
    pub fn get_offset(&self, partition_id: usize) -> (r: Option<u64>)
        requires
            self@.wf(),
        ensures
            r == offset_of(self@.offsets, partition_id),
    {
        let ghost o = self.committed_offsets@;
        let mut i: usize = 0;
        while i < self.committed_offsets.len()
            invariant
                o == self.committed_offsets@,
                distinct_partitions(o),
                i <= o.len(),
                forall|j: int| 0 <= j < i ==> (#[trigger] o[j]).0 != partition_id,
            decreases o.len() - i,
        {
            if self.committed_offsets[i].0 == partition_id {
                proof {
                    let w = choose|w: int| 0 <= w < o.len() && (#[trigger] o[w]).0 == partition_id;
                    if w != i {
                        assert(o[w].0 != o[i as int].0);
                    }
                }
                return Some(self.committed_offsets[i].1);
            }
            i = i + 1;
        }
        None
    }

    /// The group state.
    pub fn state(&self) -> (r: GroupState)
        ensures
            r == self@.state,
    {
        self.state
    }

    /// Counters at time `now`.
    pub fn stats_at(&self, now: u64) -> (r: ConsumerGroupStats)
        ensures
            r.group_id@ == self@.id,
            r.topic@ == self@.topic,
            r.state == self@.state,
            r.member_count == self@.members.len(),
            r.generation == self@.generation,
            r.partition_count == self@.partition_count,
            r.committed_partitions == self@.offsets.len(),
            r.last_rebalance_secs == elapsed(self@.last_rebalance, now),
    {
        ConsumerGroupStats {
            group_id: self.id.clone(),
            topic: self.topic.clone(),
            state: self.state,
            member_count: self.members.len(),
            generation: self.generation,
            partition_count: self.partition_count,
            committed_partitions: self.committed_offsets.len(),
            last_rebalance_secs: now.saturating_sub(self.last_rebalance),
        }
    }

    /// Counters now.
    pub fn stats(&self) -> (r: ConsumerGroupStats)
        ensures
            r.group_id@ == self@.id,
            r.topic@ == self@.topic,
            r.state == self@.state,
            r.member_count == self@.members.len(),
            r.generation == self@.generation,
            r.partition_count == self@.partition_count,
            r.committed_partitions == self@.offsets.len(),
    {
        let now = unix_time_secs();
        self.stats_at(now)
    }

    /// Copies of the members, in order.
    pub fn members(&self) -> (r: Vec<ConsumerMember>)
        ensures
            r@.len() == self@.members.len(),
            forall|i: int| 0 <= i < r@.len() ==> (#[trigger] r@[i])@ == self@.members[i]@,
    {
        let mut out: Vec<ConsumerMember> = Vec::new();
        let mut i: usize = 0;
        while i < self.members.len()
            invariant
                i <= self.members@.len(),
                out@.len() == i,
                forall|j: int| 0 <= j < i ==> (#[trigger] out@[j])@ == self.members@[j]@,
            decreases self.members@.len() - i,
        {
            let m = self.members[i].clone();
            out.push(m);
            i = i + 1;
        }
        out
    }

    /// Whether a rebalance is due at `now`: some member's session ran out,
    /// or the group is rebalancing.
    pub fn needs_rebalance_at(&self, now: u64) -> (r: bool)
        ensures
            r == self@.rebalance_due(now),
    {
        let mut i: usize = 0;
        while i < self.members.len()
            invariant
                i <= self.members@.len(),
                forall|j: int| 0 <= j < i ==> (#[trigger] self.members@[j]).alive_at(now),
            decreases self.members@.len() - i,
        {
            if !self.members[i].is_alive_at(now) {
                proof {
                    assert(!self@.members[i as int].alive_at(now));
                }
                return true;
            }
            i = i + 1;
        }
        proof {
            assert forall|j: int| 0 <= j < self@.members.len() implies (#[trigger] self@.members[j]).alive_at(now) by {
                assert(self@.members[j] == self.members@[j]);
            }
        }
        self.state == GroupState::Rebalancing
    }

    /// Whether a rebalance is due now.
    pub fn needs_rebalance(&self) -> (r: bool)
        ensures
            self@.state == GroupState::Rebalancing ==> r,
            exists|now: u64| r == #[trigger] self@.rebalance_due(now),
    {
        let now = unix_time_secs();
        self.needs_rebalance_at(now)
    }

}

// ---------------------------------------------------------------------------
// The manager of groups
// ---------------------------------------------------------------------------

/// The error for a missing group.
pub open spec fn group_missing_message(id: Seq<char>) -> Seq<char> {
    "Consumer group '"@ + id + "' not found"@
}

fn group_missing(group_id: &str) -> (r: String)
    ensures
        r@ == group_missing_message(group_id@),
{
    let a = concat("Consumer group '", group_id);
    concat(a.as_str(), "' not found")
}

/// Consumer groups by identifier, and the configuration new groups get
/// unless one is given.
pub struct ConsumerGroupManager {
    groups: Keyed<ConsumerGroup>,
    default_config: ConsumerGroupConfig,
}

impl ConsumerGroupManager {
    /// The groups by identifier.
    pub closed spec fn groups(&self) -> Map<Seq<char>, ConsumerGroup> {
        self.groups@
    }

    /// The configuration of new groups.
    pub closed spec fn defaults(&self) -> ConsumerGroupConfig {
        self.default_config
    }

    /// The invariant: one group per identifier, each well formed.
    pub closed spec fn wf(&self) -> bool {
        &&& self.groups.wf()
        &&& forall|k: Seq<char>| #[trigger] self.groups@.contains_key(k) ==> self.groups@[k]@.wf()
    }

    /// No groups.
    pub fn new(default_config: ConsumerGroupConfig) -> (r: Self)
        ensures
            r.wf(),
            r.groups() == Map::<Seq<char>, ConsumerGroup>::empty(),
            r.defaults() == default_config,
    {
        ConsumerGroupManager { groups: Keyed::new(), default_config }
    }

    /// Take group `group_id` out of the manager.
    fn take(&mut self, group_id: &str) -> (r: Option<ConsumerGroup>)
        requires
            old(self).wf(),
        ensures
            final(self).wf(),
            final(self).groups() == old(self).groups().remove(group_id@),
            final(self).defaults() == old(self).defaults(),
            match r {
                Some(g) => old(self).groups().contains_key(group_id@) && g == old(self).groups()[group_id@],
                None => !old(self).groups().contains_key(group_id@),
            },
    {
        self.groups.remove(group_id)
    }

    /// Put group `g` under `group_id`.
    fn put(&mut self, group_id: &str, g: ConsumerGroup)
        requires
            old(self).wf(),
            g@.wf(),
        ensures
            final(self).wf(),
            final(self).groups() == old(self).groups().insert(group_id@, g),
            final(self).defaults() == old(self).defaults(),
    {
        self.groups.insert(group_id.to_string(), g);
    }

    /// Create group `group_id` on `topic` at `now`, with `config` or the
    /// default configuration; an existing identifier is refused.
    pub fn create_group_at(
        &mut self,
        group_id: &str,
        topic: &str,
        partition_count: usize,
        config: Option<ConsumerGroupConfig>,
        now: u64,
    ) -> (r: Result<(), String>)
        requires
            old(self).wf(),
        ensures
            final(self).wf(),
            final(self).defaults() == old(self).defaults(),
            old(self).groups().contains_key(group_id@) ==> {
                &&& r matches Err(m) && m@ == "Consumer group '"@ + group_id@ + "' already exists"@
                &&& final(self).groups() == old(self).groups()
            },
            !old(self).groups().contains_key(group_id@) ==> {
                let g = final(self).groups()[group_id@]@;
                &&& r is Ok
                &&& final(self).groups().contains_key(group_id@)
                &&& final(self).groups().remove(group_id@) == old(self).groups()
                &&& g.id == group_id@ && g.topic == topic@ && g.partition_count == partition_count
                &&& g.members.len() == 0 && g.state == GroupState::Empty && g.offsets.len() == 0
                &&& g.generation == 0 && g.last_rebalance == now
                &&& g.config == match config {
                    Some(c) => c,
                    None => old(self).defaults(),
                }
            },
    {
        if self.groups.get(group_id).is_some() {
            let a = concat("Consumer group '", group_id);
            return Err(concat(a.as_str(), "' already exists"));
        }
        let c = match config {
            Some(c) => c,
            None => self.default_config,
        };
        let g = ConsumerGroup::new_at(group_id.to_string(), topic.to_string(), partition_count, c, now);
        self.put(group_id, g);
        proof {
            assert(self.groups().remove(group_id@) =~= old(self).groups());
        }
        Ok(())
    }

    /// Create a group now.
    pub fn create_group(
        &mut self,
        group_id: &str,
        topic: &str,
        partition_count: usize,
        config: Option<ConsumerGroupConfig>,
    ) -> (r: Result<(), String>)
        requires
            old(self).wf(),
        ensures
            final(self).wf(),
            final(self).defaults() == old(self).defaults(),
            r is Ok <==> !old(self).groups().contains_key(group_id@),
            final(self).groups().contains_key(group_id@),
            old(self).groups().contains_key(group_id@) ==> {
                &&& r matches Err(m) && m@ == "Consumer group '"@ + group_id@ + "' already exists"@
                &&& final(self).groups() == old(self).groups()
            },
            !old(self).groups().contains_key(group_id@) ==> {
                let g = final(self).groups()[group_id@]@;
                &&& final(self).groups().remove(group_id@) == old(self).groups()
                &&& g.id == group_id@ && g.topic == topic@ && g.partition_count == partition_count
                &&& g.members.len() == 0 && g.state == GroupState::Empty && g.offsets.len() == 0
                &&& g.generation == 0
                &&& g.config == match config {
                    Some(c) => c,
                    None => old(self).defaults(),
                }
            },
    {
        self.create_group_at(group_id, topic, partition_count, config, unix_time_secs())
    }

    /// Member `member_id` joins group `group_id` at `now` (see `ConsumerGroup::join_at`).
    pub fn join_group_at(
        &mut self,
        group_id: &str,
        member_id: String,
        session_timeout_secs: u64,
        now: u64,
    ) -> (r: Result<ConsumerMember, String>)
        requires
            old(self).wf(),
        ensures
            final(self).wf(),
            final(self).defaults() == old(self).defaults(),
            !old(self).groups().contains_key(group_id@) ==> {
                &&& r matches Err(m) && m@ == group_missing_message(group_id@)
                &&& final(self).groups() == old(self).groups()
            },
            old(self).groups().contains_key(group_id@) ==> {
                let before = old(self).groups()[group_id@]@;
                let after = final(self).groups()[group_id@]@;
                &&& r matches Ok(m) && m.id@ == member_id@ && m.group_id@ == before.id
                    && m.partitions@.len() == 0 && m.last_heartbeat == now
                    && m.session_timeout_secs == session_timeout_secs && m.metadata@.len() == 0
                    && before.joined(after, m@)
                &&& final(self).groups().contains_key(group_id@)
                &&& final(self).groups().remove(group_id@) == old(self).groups().remove(group_id@)
                &&& has_member(after.members, member_id@)
                &&& after.state == GroupState::Rebalancing
                &&& after.offsets == before.offsets && after.generation == before.generation
            },
    {
        match self.take(group_id) {
            None => Err(group_missing(group_id)),
            Some(mut g) => {
                let ghost mid = self.groups();
                let m = g.join_at(member_id, session_timeout_secs, now);
                proof {
                    let b = old(self).groups()[group_id@]@;
                    if has_member(b.members, m.id@) {
                        let w = member_index(b.members, m.id@);
                        assert(g@.members[w].id@ == m.id@);
                    } else {
                        assert(g@.members[b.members.len() as int].id@ == m.id@);
                    }
                }
                self.put(group_id, g);
                proof {
                    assert(self.groups().remove(group_id@) =~= mid);
                }
                Ok(m)
            },
        }
    }

    /// A new member joins group `group_id` now.
    pub fn join_group(&mut self, group_id: &str, session_timeout_secs: u64) -> (r: Result<ConsumerMember, String>)
        requires
            old(self).wf(),
        ensures
            final(self).wf(),
            r is Ok <==> old(self).groups().contains_key(group_id@),
            r matches Ok(m) ==> m.group_id@ == old(self).groups()[group_id@]@.id
                && m.session_timeout_secs == session_timeout_secs
                && has_member(final(self).groups()[group_id@]@.members, m.id@),
            final(self).defaults() == old(self).defaults(),
            !old(self).groups().contains_key(group_id@) ==> {
                &&& r matches Err(m) && m@ == group_missing_message(group_id@)
                &&& final(self).groups() == old(self).groups()
            },
            old(self).groups().contains_key(group_id@) ==> {
                let before = old(self).groups()[group_id@]@;
                let after = final(self).groups()[group_id@]@;
                &&& r matches Ok(m) && m.id@.len() == 36 && m.partitions@.len() == 0 && m.metadata@.len() == 0
                    && before.joined(after, m@)
                &&& final(self).groups().contains_key(group_id@)
                &&& final(self).groups().remove(group_id@) == old(self).groups().remove(group_id@)
                &&& after.state == GroupState::Rebalancing
                &&& after.offsets == before.offsets && after.generation == before.generation
            },
    {
        let id = new_uuid_v4();
        let now = unix_time_secs();
        self.join_group_at(group_id, id, session_timeout_secs, now)
    }

    /// Member `member_id` leaves group `group_id` (see `ConsumerGroup::leave`).
    pub fn leave_group(&mut self, group_id: &str, member_id: &str) -> (r: Result<(), String>)
        requires
            old(self).wf(),
        ensures
            final(self).wf(),
            final(self).defaults() == old(self).defaults(),
            !old(self).groups().contains_key(group_id@) ==> {
                &&& r matches Err(m) && m@ == group_missing_message(group_id@)
                &&& final(self).groups() == old(self).groups()
            },
            old(self).groups().contains_key(group_id@) ==> {
                let before = old(self).groups()[group_id@]@;
                let after = final(self).groups()[group_id@]@;
                &&& final(self).groups().contains_key(group_id@)
                &&& final(self).groups().remove(group_id@) == old(self).groups().remove(group_id@)
                &&& has_member(before.members, member_id@) ==> r is Ok
                    && after.members == before.members.remove(member_index(before.members, member_id@))
                    && after.state == GroupState::Rebalancing
                &&& !has_member(before.members, member_id@) ==> (r matches Err(m)
                    && m@ == missing_member_message(member_id@)) && after == before
                &&& after == (GroupView { members: after.members, state: after.state, ..before })
            },
    {
        match self.take(group_id) {
            None => Err(group_missing(group_id)),
            Some(mut g) => {
                let ghost mid = self.groups();
                let r = g.leave(member_id);
                self.put(group_id, g);
                proof {
                    assert(self.groups().remove(group_id@) =~= mid);
                }
                r
            },
        }
    }

    /// A heartbeat at `now` from member `member_id` of group `group_id`.
    pub fn heartbeat_at(&mut self, group_id: &str, member_id: &str, now: u64) -> (r: Result<(), String>)
        requires
            old(self).wf(),
        ensures
            final(self).wf(),
            final(self).defaults() == old(self).defaults(),
            !old(self).groups().contains_key(group_id@) ==> {
                &&& r matches Err(m) && m@ == group_missing_message(group_id@)
                &&& final(self).groups() == old(self).groups()
            },
            old(self).groups().contains_key(group_id@) ==> {
                let before = old(self).groups()[group_id@]@;
                let after = final(self).groups()[group_id@]@;
                &&& final(self).groups().contains_key(group_id@)
                &&& final(self).groups().remove(group_id@) == old(self).groups().remove(group_id@)
                &&& (r is Ok <==> has_member(before.members, member_id@))
                &&& has_member(before.members, member_id@) ==>
                    after.members[member_index(before.members, member_id@)].last_heartbeat == now
                &&& !has_member(before.members, member_id@) ==> (r matches Err(m)
                    && m@ == missing_member_message(member_id@))
                &&& after.members.len() == before.members.len() && after.state == before.state
                &&& after == (GroupView { members: after.members, ..before })
            },
    {
        match self.take(group_id) {
            None => Err(group_missing(group_id)),
            Some(mut g) => {
                let ghost mid = self.groups();
                let r = g.heartbeat_at(member_id, now);
                self.put(group_id, g);
                proof {
                    assert(self.groups().remove(group_id@) =~= mid);
                }
                r
            },
        }
    }

    /// A heartbeat now.
    pub fn heartbeat(&mut self, group_id: &str, member_id: &str) -> (r: Result<(), String>)
        requires
            old(self).wf(),
        ensures
            final(self).wf(),
            r is Ok <==> (old(self).groups().contains_key(group_id@)
                && has_member(old(self).groups()[group_id@]@.members, member_id@)),
            final(self).defaults() == old(self).defaults(),
            !old(self).groups().contains_key(group_id@) ==> {
                &&& r matches Err(m) && m@ == group_missing_message(group_id@)
                &&& final(self).groups() == old(self).groups()
            },
            old(self).groups().contains_key(group_id@) ==> {
                let before = old(self).groups()[group_id@]@;
                let after = final(self).groups()[group_id@]@;
                &&& final(self).groups().contains_key(group_id@)
                &&& final(self).groups().remove(group_id@) == old(self).groups().remove(group_id@)
                &&& !has_member(before.members, member_id@) ==> (r matches Err(m)
                    && m@ == missing_member_message(member_id@))
                &&& after.members.len() == before.members.len() && after.state == before.state
                &&& after == (GroupView { members: after.members, ..before })
            },
    {
        self.heartbeat_at(group_id, member_id, unix_time_secs())
    }

    /// Rebalance group `group_id` at `now` (see `GroupView::rebalanced_to`).
    pub fn rebalance_group_at(&mut self, group_id: &str, now: u64) -> (r: Result<(), String>)
        requires
            old(self).wf(),
            old(self).groups().contains_key(group_id@) ==> old(self).groups()[group_id@]@.generation < u64::MAX,
        ensures
            final(self).wf(),
            final(self).defaults() == old(self).defaults(),
            !old(self).groups().contains_key(group_id@) ==> {
                &&& r matches Err(m) && m@ == group_missing_message(group_id@)
                &&& final(self).groups() == old(self).groups()
            },
            old(self).groups().contains_key(group_id@) ==> {
                &&& r is Ok
                &&& final(self).groups().contains_key(group_id@)
                &&& final(self).groups().remove(group_id@) == old(self).groups().remove(group_id@)
                &&& old(self).groups()[group_id@]@.rebalanced_to(final(self).groups()[group_id@]@, now)
            },
    {
        match self.take(group_id) {
            None => Err(group_missing(group_id)),
            Some(mut g) => {
                let ghost mid = self.groups();
                let r = g.rebalance_at(now);
                self.put(group_id, g);
                proof {
                    assert(self.groups().remove(group_id@) =~= mid);
                }
                r
            },
        }
    }

    /// Rebalance group `group_id` now.
    pub fn rebalance_group(&mut self, group_id: &str) -> (r: Result<(), String>)
        requires
            old(self).wf(),
            old(self).groups().contains_key(group_id@) ==> old(self).groups()[group_id@]@.generation < u64::MAX,
        ensures
            final(self).wf(),
            r is Ok <==> old(self).groups().contains_key(group_id@),
            final(self).defaults() == old(self).defaults(),
            !old(self).groups().contains_key(group_id@) ==> {
                &&& r matches Err(m) && m@ == group_missing_message(group_id@)
                &&& final(self).groups() == old(self).groups()
            },
            old(self).groups().contains_key(group_id@) ==> {
                &&& final(self).groups().contains_key(group_id@)
                &&& final(self).groups().remove(group_id@) == old(self).groups().remove(group_id@)
                &&& exists|now: u64| #[trigger] old(self).groups()[group_id@]@.rebalanced_to(final(self).groups()[group_id@]@, now)
            },
    {
        self.rebalance_group_at(group_id, unix_time_secs())
    }

    /// The partitions of member `member_id` of group `group_id`.
    pub fn get_assignment(&self, group_id: &str, member_id: &str) -> (r: Result<Vec<usize>, String>)
        requires
            self.wf(),
        ensures
            !self.groups().contains_key(group_id@) ==> (r matches Err(m) && m@ == group_missing_message(group_id@)),
            self.groups().contains_key(group_id@) ==> {
                let g = self.groups()[group_id@]@;
                &&& has_member(g.members, member_id@) ==> (r matches Ok(v)
                    && v@ == g.members[member_index(g.members, member_id@)].partitions@)
                &&& !has_member(g.members, member_id@) ==> (r matches Err(m)
                    && m@ == "Member "@ + member_id@ + " not found"@)
            },
    {
        match self.groups.get(group_id) {
            None => Err(group_missing(group_id)),
            Some(g) => g.get_assignment(member_id),
        }
    }

    /// Commit `offset` for `partition_id` in group `group_id`.
    pub fn commit_offset(&mut self, group_id: &str, partition_id: usize, offset: u64) -> (r: Result<(), String>)
        requires
            old(self).wf(),
        ensures
            final(self).wf(),
            final(self).defaults() == old(self).defaults(),
            !old(self).groups().contains_key(group_id@) ==> {
                &&& r matches Err(m) && m@ == group_missing_message(group_id@)
                &&& final(self).groups() == old(self).groups()
            },
            old(self).groups().contains_key(group_id@) ==> {
                let before = old(self).groups()[group_id@]@;
                let after = final(self).groups()[group_id@]@;
                &&& r is Ok
                &&& final(self).groups().contains_key(group_id@)
                &&& final(self).groups().remove(group_id@) == old(self).groups().remove(group_id@)
                &&& offset_of(after.offsets, partition_id) == Some(offset)
                &&& forall|p: usize| p != partition_id ==> #[trigger] offset_of(after.offsets, p) == offset_of(before.offsets, p)
                &&& after.members == before.members && after.state == before.state
                &&& after == (GroupView { offsets: after.offsets, ..before })
            },
    {
        match self.take(group_id) {
            None => Err(group_missing(group_id)),
            Some(mut g) => {
                let ghost mid = self.groups();
                g.commit_offset(partition_id, offset);
                self.put(group_id, g);
                proof {
                    assert(self.groups().remove(group_id@) =~= mid);
                }
                Ok(())
            },
        }
    }

    /// The committed offset of `partition_id` in group `group_id`.
    pub fn get_offset(&self, group_id: &str, partition_id: usize) -> (r: Result<Option<u64>, String>)
        requires
            self.wf(),
        ensures
            !self.groups().contains_key(group_id@) ==> (r matches Err(m) && m@ == group_missing_message(group_id@)),
            self.groups().contains_key(group_id@) ==> r == Ok::<Option<u64>, String>(
                offset_of(self.groups()[group_id@]@.offsets, partition_id)),
    {
        match self.groups.get(group_id) {
            None => Err(group_missing(group_id)),
            Some(g) => Ok(g.get_offset(partition_id)),
        }
    }

    /// The counters of group `group_id` at `now`.
    pub fn group_stats_at(&self, group_id: &str, now: u64) -> (r: Result<ConsumerGroupStats, String>)
        requires
            self.wf(),
        ensures
            !self.groups().contains_key(group_id@) ==> (r matches Err(m) && m@ == group_missing_message(group_id@)),
            self.groups().contains_key(group_id@) ==> {
                let g = self.groups()[group_id@]@;
                &&& r matches Ok(s)
                &&& s.group_id@ == g.id && s.topic@ == g.topic && s.state == g.state
                &&& s.member_count == g.members.len() && s.generation == g.generation
                &&& s.partition_count == g.partition_count && s.committed_partitions == g.offsets.len()
                &&& s.last_rebalance_secs == elapsed(g.last_rebalance, now)
            },
    {
        match self.groups.get(group_id) {
            None => Err(group_missing(group_id)),
            Some(g) => Ok(g.stats_at(now)),
        }
    }

    /// The counters of group `group_id` now.
    pub fn group_stats(&self, group_id: &str) -> (r: Result<ConsumerGroupStats, String>)
        requires
            self.wf(),
        ensures
            r is Ok <==> self.groups().contains_key(group_id@),
            !self.groups().contains_key(group_id@) ==> (r matches Err(m) && m@ == group_missing_message(group_id@)),
            self.groups().contains_key(group_id@) ==> {
                let g = self.groups()[group_id@]@;
                &&& r matches Ok(s)
                &&& s.group_id@ == g.id && s.topic@ == g.topic && s.state == g.state
                &&& s.member_count == g.members.len() && s.generation == g.generation
                &&& s.partition_count == g.partition_count && s.committed_partitions == g.offsets.len()
            },
    {
        self.group_stats_at(group_id, unix_time_secs())
    }

    /// The identifiers of all groups.
    pub fn list_groups(&self) -> (r: Vec<String>)
        requires
            self.wf(),
        ensures
            r@.len() == self.groups().len(),
            forall|i: int| 0 <= i < r@.len() ==> self.groups().contains_key(#[trigger] r@[i]@),
            forall|k: Seq<char>| #[trigger] self.groups().contains_key(k) ==> exists|i: int| 0 <= i < r@.len() && r@[i]@ == k,
    {
        proof {
            self.groups.lemma_entries();
        }
        let n = self.groups.len();
        let mut out: Vec<String> = Vec::new();
        let mut i: usize = 0;
        while i < n
            invariant
                self.wf(),
                n == self.groups.entries().len(),
                i <= n,
                out@.len() == i,
                forall|j: int| 0 <= j < i ==> (#[trigger] out@[j])@ == self.groups.entries()[j].0@,
            decreases n - i,
        {
            let (k, _g) = self.groups.entry_at(i);
            out.push(k.clone());
            i = i + 1;
        }
        proof {
            self.groups.lemma_entries();
            assert forall|k: Seq<char>| #[trigger] self.groups().contains_key(k) implies exists|i: int| 0 <= i < out@.len() && out@[i]@ == k by {
                let j = choose|j: int| 0 <= j < self.groups.entries().len() && self.groups.entries()[j].0@ == k;
                assert(out@[j]@ == k);
            }
            assert forall|i: int| 0 <= i < out@.len() implies self.groups().contains_key(#[trigger] out@[i]@) by {
                assert(out@[i]@ == self.groups.entries()[i].0@);
            }
        }
        out
    }

    /// Delete group `group_id`.
    pub fn delete_group(&mut self, group_id: &str) -> (r: Result<(), String>)
        requires
            old(self).wf(),
        ensures
            final(self).wf(),
            final(self).defaults() == old(self).defaults(),
            final(self).groups() == old(self).groups().remove(group_id@),
            r is Ok <==> old(self).groups().contains_key(group_id@),
            r is Err ==> (r matches Err(m) && m@ == group_missing_message(group_id@)),
    {
        match self.take(group_id) {
            Some(_g) => Ok(()),
            None => Err(group_missing(group_id)),
        }
    }

    /// The groups that are due a rebalance at `now` (see `GroupView::rebalance_due`):
    /// what the periodic rebalancing task rebalances.
    pub fn groups_to_rebalance_at(&self, now: u64) -> (r: Vec<String>)
        requires
            self.wf(),
        ensures
            forall|i: int| 0 <= i < r@.len() ==> self.groups().contains_key(#[trigger] r@[i]@)
                && self.groups()[r@[i]@]@.rebalance_due(now),
            forall|k: Seq<char>| #[trigger] self.groups().contains_key(k) && self.groups()[k]@.rebalance_due(now)
                ==> exists|i: int| 0 <= i < r@.len() && r@[i]@ == k,
    {
        proof {
            self.groups.lemma_entries();
        }
        let n = self.groups.len();
        let mut out: Vec<String> = Vec::new();
        let mut i: usize = 0;
        while i < n
            invariant
                self.wf(),
                n == self.groups.entries().len(),
                i <= n,
                forall|j: int| 0 <= j < out@.len() ==> self.groups().contains_key(#[trigger] out@[j]@)
                    && self.groups()[out@[j]@]@.rebalance_due(now),
                forall|j: int| 0 <= j < i && (#[trigger] self.groups.entries()[j]).1@.rebalance_due(now)
                    ==> exists|x: int| 0 <= x < out@.len() && out@[x]@ == self.groups.entries()[j].0@,
            decreases n - i,
        {
            proof {
                self.groups.lemma_entries();
            }
            let (k, g) = self.groups.entry_at(i);
            let ghost before = out@;
            if g.needs_rebalance_at(now) {
                out.push(k.clone());
                proof {
                    assert(out@[before.len() as int]@ == self.groups.entries()[i as int].0@);
                    self.groups.lemma_entries();
                    assert(self.groups@.contains_key(self.groups.entries()[i as int].0@));
                    assert(self.groups@[self.groups.entries()[i as int].0@] == self.groups.entries()[i as int].1);
                    assert forall|j: int| 0 <= j < out@.len() implies self.groups().contains_key(#[trigger] out@[j]@)
                        && self.groups()[out@[j]@]@.rebalance_due(now) by {
                        if j < before.len() {
                            assert(out@[j] == before[j]);
                        }
                    }
                    assert forall|j: int| 0 <= j < i + 1 && (#[trigger] self.groups.entries()[j]).1@.rebalance_due(now)
                        implies exists|x: int| 0 <= x < out@.len() && out@[x]@ == self.groups.entries()[j].0@ by {
                        if j < i {
                            let x = choose|x: int| 0 <= x < before.len() && before[x]@ == self.groups.entries()[j].0@;
                            assert(out@[x] == before[x]);
                        } else {
                            assert(out@[before.len() as int]@ == self.groups.entries()[j].0@);
                        }
                    }
                }
            }
            i = i + 1;
        }
        proof {
            self.groups.lemma_entries();
            assert forall|k: Seq<char>| #[trigger] self.groups().contains_key(k) && self.groups()[k]@.rebalance_due(now)
                implies exists|x: int| 0 <= x < out@.len() && out@[x]@ == k by {
                let j = choose|j: int| 0 <= j < self.groups.entries().len() && self.groups.entries()[j].0@ == k;
                assert(self.groups.entries()[j].1@.rebalance_due(now));
            }
        }
        out
    }
}

} // verus!
