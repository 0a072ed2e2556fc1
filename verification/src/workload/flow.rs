//! How items move around a ring of queues: `ch[n - 1]` down to `ch[0]`,
//! each feeding the next stage. Concatenated downstream first, the queues
//! list the items oldest first, and every hop of the ring (front of one
//! queue to back of the next) leaves that listing as it was.
use vstd::prelude::*;

verus! {

/// `f` of every item of queues `n - 1` down to `0`, queue by queue, each
/// front first.
pub open spec fn flat<T, A>(ch: Seq<Seq<T>>, n: nat, f: spec_fn(T) -> A) -> Seq<A>
    decreases n,
{
    if n == 0 {
        Seq::empty()
    } else {
        ch[n - 1].map_values(f) + flat(ch, (n - 1) as nat, f)
    }
}

/// The batches `lo..hi`, in order.
pub open spec fn batch_range(lo: int, hi: int) -> Seq<u64> {
    Seq::new((hi - lo) as nat, |j: int| (lo + j) as u64)
}

/// The hops still owed by the items of queues `0..n`: one in queue `k` has
/// `total - k` hops left.
pub open spec fn hops_left<T>(ch: Seq<Seq<T>>, n: nat, total: int) -> int
    decreases n,
{
    if n == 0 {
        0
    } else {
        hops_left(ch, (n - 1) as nat, total) + ch[n - 1].len() * (total - (n - 1))
    }
}

pub proof fn lemma_flat_len<T, A>(ch: Seq<Seq<T>>, n: nat, f: spec_fn(T) -> A)
    requires
        n <= ch.len(),
    ensures
        flat(ch, n, f).len() == 0 <==> forall|k: int| 0 <= k < n ==> (#[trigger] ch[k]).len() == 0,
    decreases n,
{
    if n > 0 {
        lemma_flat_len(ch, (n - 1) as nat, f);
        if flat(ch, n, f).len() == 0 {
            assert forall|k: int| 0 <= k < n implies (#[trigger] ch[k]).len() == 0 by {
                if k == n - 1 {
                    assert(ch[k].map_values(f).len() == ch[k].len());
                }
            }
        }
    }
}

pub proof fn lemma_flat_unchanged<T, A>(ch: Seq<Seq<T>>, i: int, q: Seq<T>, n: nat, f: spec_fn(T) -> A)
    requires
        n <= i < ch.len(),
    ensures
        flat(ch.update(i, q), n, f) == flat(ch, n, f),
    decreases n,
{
    if n > 0 {
        lemma_flat_unchanged(ch, i, q, (n - 1) as nat, f);
    }
}

/// Appending an item to queue 0 appends it to the listing.
pub proof fn lemma_flat_push<T, A>(ch: Seq<Seq<T>>, m: T, n: nat, f: spec_fn(T) -> A)
    requires
        1 <= n <= ch.len(),
    ensures
        flat(ch.update(0, ch[0].push(m)), n, f) == flat(ch, n, f).push(f(m)),
    decreases n,
{
    let ch2 = ch.update(0, ch[0].push(m));
    if n == 1 {
        assert(ch[0].push(m).map_values(f) =~= ch[0].map_values(f).push(f(m)));
        assert(ch2[0] == ch[0].push(m));
        assert(flat(ch2, 0, f) =~= Seq::<A>::empty());
        assert(flat(ch, 0, f) =~= Seq::<A>::empty());
        assert(flat(ch2, 1, f) == ch2[0].map_values(f) + flat(ch2, 0, f));
        assert(flat(ch, 1, f) == ch[0].map_values(f) + flat(ch, 0, f));
        assert(flat(ch2, 1, f) =~= flat(ch, 1, f).push(f(m)));
    } else {
        lemma_flat_push(ch, m, (n - 1) as nat, f);
        assert(flat(ch2, n, f) =~= flat(ch, n, f).push(f(m)));
    }
}

/// Moving the front item of queue `i` to the back of queue `i + 1`, as
/// `m`, leaves the listing unchanged when `f` does not tell the two apart.
pub proof fn lemma_flat_shift<T, A>(ch: Seq<Seq<T>>, i: int, m: T, n: nat, f: spec_fn(T) -> A)
    requires
        0 <= i,
        i + 1 < ch.len(),
        ch[i].len() > 0,
        f(m) == f(ch[i][0]),
        i + 2 <= n <= ch.len(),
    ensures
        flat(ch.update(i, ch[i].drop_first()).update(i + 1, ch[i + 1].push(m)), n, f) == flat(
            ch,
            n,
            f,
        ),
    decreases n,
{
    let ch1 = ch.update(i, ch[i].drop_first());
    let ch2 = ch1.update(i + 1, ch[i + 1].push(m));
    if n == i + 2 {
        lemma_flat_unchanged(ch, i, ch[i].drop_first(), i as nat, f);
        lemma_flat_unchanged(ch1, i + 1, ch[i + 1].push(m), (i + 1) as nat, f);
        assert(ch[i].map_values(f) =~= seq![f(m)] + ch[i].drop_first().map_values(f));
        assert(ch[i + 1].push(m).map_values(f) =~= ch[i + 1].map_values(f).push(f(m)));
        assert(flat(ch2, (i + 1) as nat, f) == ch[i].drop_first().map_values(f) + flat(ch, i as nat, f));
        assert(flat(ch, (i + 1) as nat, f) == ch[i].map_values(f) + flat(ch, i as nat, f));
        assert(flat(ch2, n, f) =~= flat(ch, n, f));
    } else {
        lemma_flat_shift(ch, i, m, (n - 1) as nat, f);
    }
}

/// Taking the front item of the last queue takes the head of the listing.
pub proof fn lemma_flat_pop<T, A>(ch: Seq<Seq<T>>, n: nat, f: spec_fn(T) -> A)
    requires
        1 <= n == ch.len(),
        ch[n - 1].len() > 0,
    ensures
        flat(ch.update(n - 1, ch[n - 1].drop_first()), n, f) == flat(ch, n, f).drop_first(),
        flat(ch, n, f)[0] == f(ch[n - 1][0]),
        flat(ch, n, f).len() > 0,
{
    let ch2 = ch.update(n - 1, ch[n - 1].drop_first());
    lemma_flat_unchanged(ch, n - 1, ch[n - 1].drop_first(), (n - 1) as nat, f);
    assert(ch[n - 1].map_values(f) =~= seq![f(ch[n - 1][0])] + ch[n - 1].drop_first().map_values(f));
    assert(flat(ch2, n, f) =~= flat(ch, n, f).drop_first());
}

/// Every item of the listing comes from some queue position.
pub proof fn lemma_flat_index<T, A>(ch: Seq<Seq<T>>, n: nat, f: spec_fn(T) -> A, k: int, j: int) -> (p: int)
    requires
        n <= ch.len(),
        0 <= k < n,
        0 <= j < ch[k].len(),
    ensures
        0 <= p < flat(ch, n, f).len(),
        flat(ch, n, f)[p] == f(ch[k][j]),
        p == flat(ch, n, f).len() - flat(ch, (k + 1) as nat, f).len() + j,
    decreases n,
{
    if k == n - 1 {
        assert(flat(ch, n, f)[j] == ch[k].map_values(f)[j]);
        j
    } else {
        let p0 = lemma_flat_index(ch, (n - 1) as nat, f, k, j);
        let head = ch[n - 1].len() as int;
        assert(flat(ch, n, f)[head + p0] == flat(ch, (n - 1) as nat, f)[p0]);
        head + p0
    }
}

pub proof fn lemma_hops_nonneg<T>(ch: Seq<Seq<T>>, n: nat, total: int)
    requires
        n <= ch.len(),
        n <= total + 1,
    ensures
        hops_left(ch, n, total) >= 0,
    decreases n,
{
    if n > 0 {
        lemma_hops_nonneg(ch, (n - 1) as nat, total);
        assert(ch[n - 1].len() * (total - (n - 1)) >= 0) by (nonlinear_arith)
            requires
                total - (n - 1) >= 0,
        ;
    }
}

pub proof fn lemma_hops_empty<T>(ch: Seq<Seq<T>>, n: nat, total: int)
    requires
        n <= ch.len(),
        forall|k: int| 0 <= k < n ==> (#[trigger] ch[k]).len() == 0,
    ensures
        hops_left(ch, n, total) == 0,
    decreases n,
{
    if n > 0 {
        lemma_hops_empty(ch, (n - 1) as nat, total);
    }
}

/// Replacing queue `i` by one that is one item longer, or shorter, changes
/// the hops owed by `total - i`.
pub proof fn lemma_hops_update<T>(ch: Seq<Seq<T>>, i: int, q: Seq<T>, n: nat, total: int)
    requires
        0 <= i < ch.len(),
        n <= ch.len(),
    ensures
        i >= n ==> hops_left(ch.update(i, q), n, total) == hops_left(ch, n, total),
        i < n && q.len() == ch[i].len() + 1 ==> hops_left(ch.update(i, q), n, total)
            == hops_left(ch, n, total) + (total - i),
        i < n && q.len() + 1 == ch[i].len() ==> hops_left(ch.update(i, q), n, total)
            == hops_left(ch, n, total) - (total - i),
    decreases n,
{
    let d = q.len() - ch[i].len();
    assert(d == 1 ==> d * (total - i) == total - i) by (nonlinear_arith);
    assert(d == -1 ==> d * (total - i) == -(total - i)) by (nonlinear_arith);
    if n > 0 {
        lemma_hops_update(ch, i, q, (n - 1) as nat, total);
        if i == n - 1 {
            let a = q.len() as int;
            let b = ch[i].len() as int;
            let t = total - i;
            assert(a * t == b * t + (a - b) * t) by (nonlinear_arith);
        }
    }
}

/// Replacing queue `i` changes the length of the listing of queues `0..n`
/// by the change in its length, if it is one of them.
pub proof fn lemma_flat_len_update<T, A>(ch: Seq<Seq<T>>, i: int, q: Seq<T>, n: nat, f: spec_fn(T) -> A)
    requires
        0 <= i < ch.len(),
        n <= ch.len(),
    ensures
        flat(ch.update(i, q), n, f).len() == flat(ch, n, f).len() + (if i < n {
            q.len() - ch[i].len()
        } else {
            0
        }),
    decreases n,
{
    if n > 0 {
        lemma_flat_len_update(ch, i, q, (n - 1) as nat, f);
    }
}

/// The listing of queues `0..n` is at most as long as that of `0..m`, `n <= m`.
pub proof fn lemma_flat_len_mono<T, A>(ch: Seq<Seq<T>>, n: nat, m: nat, f: spec_fn(T) -> A)
    requires
        n <= m <= ch.len(),
    ensures
        flat(ch, n, f).len() <= flat(ch, m, f).len(),
    decreases m,
{
    if n < m {
        lemma_flat_len_mono(ch, n, (m - 1) as nat, f);
    }
}

/// Two different queue positions hold items with different projections,
/// when the listing, followed by anything, has no duplicates.
pub proof fn lemma_flat_distinct<T, A>(
    ch: Seq<Seq<T>>,
    n: nat,
    f: spec_fn(T) -> A,
    rest: Seq<A>,
    k1: int,
    j1: int,
    k2: int,
    j2: int,
)
    requires
        n <= ch.len(),
        (flat(ch, n, f) + rest).no_duplicates(),
        0 <= k1 < n,
        0 <= j1 < ch[k1].len(),
        0 <= k2 < n,
        0 <= j2 < ch[k2].len(),
        k1 != k2 || j1 != j2,
    ensures
        f(ch[k1][j1]) != f(ch[k2][j2]),
{
    let all = flat(ch, n, f) + rest;
    let p1 = lemma_flat_index(ch, n, f, k1, j1);
    let p2 = lemma_flat_index(ch, n, f, k2, j2);
    assert(flat(ch, (k1 + 1) as nat, f).len() == ch[k1].len() + flat(ch, k1 as nat, f).len());
    assert(flat(ch, (k2 + 1) as nat, f).len() == ch[k2].len() + flat(ch, k2 as nat, f).len());
    if k1 < k2 {
        lemma_flat_len_mono(ch, (k1 + 1) as nat, k2 as nat, f);
    } else if k2 < k1 {
        lemma_flat_len_mono(ch, (k2 + 1) as nat, k1 as nat, f);
    }
    assert(p1 != p2);
    assert(all[p1] == flat(ch, n, f)[p1]);
    assert(all[p2] == flat(ch, n, f)[p2]);
}

/// An item of a queue and an element of what follows the listing differ,
/// when the whole has no duplicates.
pub proof fn lemma_flat_distinct_rest<T, A>(
    ch: Seq<Seq<T>>,
    n: nat,
    f: spec_fn(T) -> A,
    rest: Seq<A>,
    k: int,
    j: int,
    r: int,
)
    requires
        n <= ch.len(),
        (flat(ch, n, f) + rest).no_duplicates(),
        0 <= k < n,
        0 <= j < ch[k].len(),
        0 <= r < rest.len(),
    ensures
        f(ch[k][j]) != rest[r],
{
    let all = flat(ch, n, f) + rest;
    let p = lemma_flat_index(ch, n, f, k, j);
    let l = flat(ch, n, f).len() as int;
    assert(all[p] == flat(ch, n, f)[p]);
    assert(all[l + r] == rest[r]);
}

} // verus!
