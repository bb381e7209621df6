use vstd::prelude::*;

verus! {

/// Position written by one pair: `from` going forward, `to` going backward.
pub open spec fn dst(p: (usize, usize), fwd: bool) -> int {
    if fwd { p.0 as int } else { p.1 as int }
}

/// Position read by one pair: `to` going forward, `from` going backward.
pub open spec fn src(p: (usize, usize), fwd: bool) -> int {
    if fwd { p.1 as int } else { p.0 as int }
}

/// The first `k` pairs written into `base`, each one with the value that the
/// snapshot `snap` holds at the position the pair reads.
pub open spec fn scatter<T>(
    pairs: Seq<(usize, usize)>,
    fwd: bool,
    base: Seq<T>,
    snap: Seq<T>,
    k: nat,
) -> Seq<T>
    decreases k,
{
    if k == 0 {
        base
    } else {
        let p = pairs[k - 1];
        scatter(pairs, fwd, base, snap, (k - 1) as nat).update(dst(p, fwd), snap[src(p, fwd)])
    }
}

/// One application: all reads are taken from the labeling before the step.
pub open spec fn step<T>(pairs: Seq<(usize, usize)>, fwd: bool, s: Seq<T>) -> Seq<T> {
    scatter(pairs, fwd, s, s, pairs.len())
}

/// `c` applications one after the other, each reading the result of the last.
pub open spec fn iterate<T>(pairs: Seq<(usize, usize)>, fwd: bool, s: Seq<T>, c: nat) -> Seq<T>
    decreases c,
{
    if c == 0 {
        s
    } else {
        step(pairs, fwd, iterate(pairs, fwd, s, (c - 1) as nat))
    }
}

/// Application with a signed power: forward for a positive power, backward for
/// a negative one, `|power|` times.
pub open spec fn apply_pow<T>(pairs: Seq<(usize, usize)>, s: Seq<T>, power: int) -> Seq<T> {
    if power >= 0 {
        iterate(pairs, true, s, power as nat)
    } else {
        iterate(pairs, false, s, (-power) as nat)
    }
}

/// `m` maps each position of `[0, m.len())` to a position of that range, and
/// each position is reached by exactly one.
pub open spec fn is_perm(m: Seq<usize>) -> bool {
    &&& forall|i: int| 0 <= i < m.len() ==> #[trigger] m[i] < m.len()
    &&& forall|i: int, j: int| 0 <= i < m.len() && 0 <= j < m.len() && i != j ==> m[i] != m[j]
    &&& forall|v: int| 0 <= v < m.len() ==> #[trigger] reached(m, v)
}

/// Some position of `m` maps to `v`.
pub open spec fn reached(m: Seq<usize>, v: int) -> bool {
    exists|i: int| 0 <= i < m.len() && #[trigger] m[i] == v
}

/// The pairs `(i, m[i])` for the positions `i < k` that `m` moves, in order of `i`.
pub open spec fn sparse_pairs(m: Seq<usize>, k: nat) -> Seq<(usize, usize)>
    decreases k,
{
    if k == 0 {
        Seq::empty()
    } else {
        let r = sparse_pairs(m, (k - 1) as nat);
        if m[k - 1] != (k - 1) as usize {
            r.push(((k - 1) as usize, m[k - 1]))
        } else {
            r
        }
    }
}

/// The number of positions `i < k` with `m[i] != i`.
pub open spec fn num_moved(m: Seq<usize>, k: nat) -> nat
    decreases k,
{
    if k == 0 {
        0
    } else {
        num_moved(m, (k - 1) as nat) + if m[k - 1] != (k - 1) as usize { 1nat } else { 0nat }
    }
}

/// Every position a pair names is below `n`.
pub open spec fn within(pairs: Seq<(usize, usize)>, n: nat) -> bool {
    forall|k: int| #![trigger pairs[k]] 0 <= k < pairs.len() ==> pairs[k].0 < n && pairs[k].1 < n
}

/// The pairs describe a permutation that moves exactly the positions they name:
/// no fixed point, no position written or read twice, and the positions written
/// are the positions read.
pub open spec fn pairs_wf(pairs: Seq<(usize, usize)>) -> bool {
    &&& forall|k: int| #![trigger pairs[k]] 0 <= k < pairs.len() ==> pairs[k].0 != pairs[k].1
    &&& forall|a: int, b: int|
        #![trigger pairs[a], pairs[b]]
        0 <= a < pairs.len() && 0 <= b < pairs.len() && a != b ==> pairs[a].0 != pairs[b].0
            && pairs[a].1 != pairs[b].1
    &&& forall|k: int|
        #![trigger pairs[k]]
        0 <= k < pairs.len() ==> has_pair_from(pairs, pairs[k].1 as int) && has_pair_to(
            pairs,
            pairs[k].0 as int,
        )
}

/// Some pair of `ps` starts at `i`.
#[verifier::opaque]
pub open spec fn has_pair_from(ps: Seq<(usize, usize)>, i: int) -> bool {
    exists|j: int| 0 <= j < ps.len() && #[trigger] ps[j].0 == i
}

/// Some pair of `ps` ends at `i`.
#[verifier::opaque]
pub open spec fn has_pair_to(ps: Seq<(usize, usize)>, i: int) -> bool {
    exists|j: int| 0 <= j < ps.len() && #[trigger] ps[j].1 == i
}

/// A permutation of positions that stores only the positions it moves.
#[derive(Debug, Clone)]
pub struct SparsePermutation {
    from_to: Vec<(usize, usize)>,
}

impl View for SparsePermutation {
    type V = Seq<(usize, usize)>;

    closed spec fn view(&self) -> Seq<(usize, usize)> {
        self.from_to@
    }
}

impl SparsePermutation {
    /// The permutation is well formed: see `pairs_wf`.
    pub open spec fn wf(&self) -> bool {
        pairs_wf(self@)
    }

    /// Every position the permutation moves lies below `n`.
    pub open spec fn fits(&self, n: nat) -> bool {
        within(self@, n)
    }

    /// The number of stored pairs, one per moved position.
    pub fn len(&self) -> (r: usize)
        ensures
            r == self@.len(),
    {
        self.from_to.len()
    }

    /// Builds the permutation in which the label at `perm[i]` moves to `i`,
    /// keeping only the positions with `perm[i] != i`.
    pub fn new(perm: &[usize]) -> (r: Self)
        requires
            is_perm(perm@),
        ensures
            r@ == sparse_pairs(perm@, perm@.len()),
            r@.len() == num_moved(perm@, perm@.len()),
            r.wf(),
            r.fits(perm@.len()),
    {
        let mut from_to: Vec<(usize, usize)> = Vec::new();
        let mut i: usize = 0;
        while i < perm.len()
            invariant
                i <= perm@.len(),
                from_to@ == sparse_pairs(perm@, i as nat),
            decreases perm@.len() - i,
        {
            if perm[i] != i {
                from_to.push((i, perm[i]));
            }
            i += 1;
        }
        let r = SparsePermutation { from_to };
        proof {
            lemma_sparse_pairs(perm@, perm@.len());
            lemma_sparse_len(perm@, perm@.len());
            lemma_sparse_wf(perm@);
        }
        r
    }

    /// Returns a copy of `x` with the permutation applied `|power|` times,
    /// backward when `power` is negative.
    pub fn apply<T: Copy>(&self, x: &[T], power: isize) -> (r: Vec<T>)
        requires
            self.fits(x@.len()),
        ensures
            r@ == apply_pow(self@, x@, power as int),
    {
        let mut res = vstd::slice::slice_to_vec(x);
        self.apply_inplace(res.as_mut_slice(), power);
        res
    }

    /// Applies the permutation to `x` `|power|` times, backward when `power` is
    /// negative; a power of zero leaves `x` as it is.
    pub fn apply_inplace<T: Copy>(&self, x: &mut [T], power: isize)
        requires
            self.fits(old(x)@.len()),
        ensures
            final(x)@ == apply_pow(self@, old(x)@, power as int),
            final(x)@.len() == old(x)@.len(),
    {
        let fwd = power > 0;
        let count: usize = if power >= 0 {
            power as usize
        } else {
            (-(power + 1)) as usize + 1
        };
        let ghost s0 = x@;
        let mut c: usize = 0;
        while c < count
            invariant
                c <= count,
                s0 == old(x)@,
                self.fits(s0.len()),
                x@ == iterate(self@, fwd, s0, c as nat),
                x@.len() == s0.len(),
                power >= 0 ==> count == power && (fwd || count == 0),
                power < 0 ==> count == -power && !fwd,
            decreases count - c,
        {
            self.step_once(x, fwd);
            c += 1;
        }
    }

    /// One application, forward or backward: gathers every label that moves,
    /// then writes them all.
    fn step_once<T: Copy>(&self, x: &mut [T], fwd: bool)
        requires
            self.fits(old(x)@.len()),
        ensures
            final(x)@ == step(self@, fwd, old(x)@),
            final(x)@.len() == old(x)@.len(),
    {
        let n = self.from_to.len();
        let mut moving: Vec<T> = Vec::new();
        let mut i: usize = 0;
        while i < n
            invariant
                n == self@.len(),
                i <= n,
                self.fits(x@.len()),
                moving@.len() == i,
                forall|j: int| 0 <= j < i ==> moving@[j] == x@[src(self@[j], fwd)],
            decreases n - i,
        {
            let p = self.from_to[i];
            let v = if fwd { x[p.1] } else { x[p.0] };
            moving.push(v);
            i += 1;
        }
        let ghost s0 = x@;
        i = 0;
        while i < n
            invariant
                n == self@.len(),
                i <= n,
                self.fits(s0.len()),
                moving@.len() == n,
                forall|j: int| 0 <= j < n ==> moving@[j] == s0[src(self@[j], fwd)],
                x@.len() == s0.len(),
                x@ == scatter(self@, fwd, s0, s0, i as nat),
            decreases n - i,
        {
            let p = self.from_to[i];
            if fwd {
                x[p.0] = moving[i];
            } else {
                x[p.1] = moving[i];
            }
            i += 1;
        }
    }
}

proof fn lemma_sparse_pairs(m: Seq<usize>, k: nat)
    requires
        k <= m.len() <= usize::MAX,
    ensures
        forall|j: int|
            0 <= j < sparse_pairs(m, k).len() ==> {
                let p = #[trigger] sparse_pairs(m, k)[j];
                &&& p.0 < k
                &&& p.1 == m[p.0 as int]
                &&& p.0 != p.1
            },
        forall|a: int, b: int|
            0 <= a < b < sparse_pairs(m, k).len() ==> #[trigger] sparse_pairs(m, k)[a].0
                < #[trigger] sparse_pairs(m, k)[b].0,
        forall|i: int|
            0 <= i < k && m[i] != i as usize ==> #[trigger] has_pair_from(sparse_pairs(m, k), i),
    decreases k,
{
    if k > 0 {
        lemma_sparse_pairs(m, (k - 1) as nat);
        let r = sparse_pairs(m, (k - 1) as nat);
        let q = sparse_pairs(m, k);
        reveal(has_pair_from);
        assert forall|i: int| 0 <= i < k && m[i] != i as usize implies #[trigger] has_pair_from(
            q,
            i,
        ) by {
            if i == k - 1 {
                assert(q == r.push(((k - 1) as usize, m[k - 1])));
                assert(q[r.len() as int].0 == i);
            } else {
                assert(has_pair_from(r, i));
                let j = choose|j: int| 0 <= j < r.len() && #[trigger] r[j].0 == i;
                assert(q[j] == r[j]);
            }
        }
    }
}

proof fn lemma_sparse_len(m: Seq<usize>, k: nat)
    requires
        k <= m.len(),
    ensures
        sparse_pairs(m, k).len() == num_moved(m, k),
    decreases k,
{
    if k > 0 {
        lemma_sparse_len(m, (k - 1) as nat);
    }
}

proof fn lemma_sparse_distinct(m: Seq<usize>)
    requires
        is_perm(m),
        m.len() <= usize::MAX,
    ensures
        ({
            let ps = sparse_pairs(m, m.len());
            forall|a: int, b: int|
                #![trigger ps[a], ps[b]]
                0 <= a < ps.len() && 0 <= b < ps.len() && a != b ==> ps[a].0 != ps[b].0
                    && ps[a].1 != ps[b].1
        }),
{
    let ps = sparse_pairs(m, m.len());
    lemma_sparse_pairs(m, m.len());
    assert forall|a: int, b: int|
        #![trigger ps[a], ps[b]]
        0 <= a < ps.len() && 0 <= b < ps.len() && a != b implies ps[a].0 != ps[b].0
            && ps[a].1 != ps[b].1 by {
        let (pa, pb) = (ps[a], ps[b]);
        if a < b {
            assert(pa.0 < pb.0);
        } else {
            assert(pb.0 < pa.0);
        }
        assert(pa.1 == m[pa.0 as int]);
        assert(pb.1 == m[pb.0 as int]);
    }
}

proof fn lemma_sparse_to_is_from(m: Seq<usize>)
    requires
        is_perm(m),
        m.len() <= usize::MAX,
    ensures
        ({
            let ps = sparse_pairs(m, m.len());
            forall|k: int|
                #![trigger ps[k]]
                0 <= k < ps.len() ==> has_pair_from(ps, ps[k].1 as int)
        }),
{
    let n = m.len();
    let ps = sparse_pairs(m, n);
    lemma_sparse_pairs(m, n);
    assert forall|k: int| #![trigger ps[k]] 0 <= k < ps.len() implies has_pair_from(
        ps,
        ps[k].1 as int,
    ) by {
        let p = ps[k];
        let t = p.1 as int;
        assert(p.1 == m[p.0 as int]);
        assert(m[t] < n);
        if m[t] == t as usize {
            assert(m[t] == m[p.0 as int]);
        }
        assert(has_pair_from(ps, t));
    }
}

proof fn lemma_sparse_from_is_to(m: Seq<usize>)
    requires
        is_perm(m),
        m.len() <= usize::MAX,
    ensures
        ({
            let ps = sparse_pairs(m, m.len());
            forall|k: int|
                #![trigger ps[k]]
                0 <= k < ps.len() ==> has_pair_to(ps, ps[k].0 as int)
        }),
{
    let n = m.len();
    let ps = sparse_pairs(m, n);
    lemma_sparse_pairs(m, n);
    assert forall|k: int| #![trigger ps[k]] 0 <= k < ps.len() implies has_pair_to(
        ps,
        ps[k].0 as int,
    ) by {
        let p = ps[k];
        let i = p.0 as int;
        assert(reached(m, i));
        let q = choose|q: int| 0 <= q < n && #[trigger] m[q] == i;
        assert(m[q] != q as usize);
        reveal(has_pair_from);
        reveal(has_pair_to);
        assert(has_pair_from(ps, q));
        let j = choose|j: int| 0 <= j < ps.len() && #[trigger] ps[j].0 == q;
        assert(ps[j].1 == m[q]);
    }
}

proof fn lemma_sparse_wf(m: Seq<usize>)
    requires
        is_perm(m),
        m.len() <= usize::MAX,
    ensures
        pairs_wf(sparse_pairs(m, m.len())),
        within(sparse_pairs(m, m.len()), m.len()),
{
    lemma_sparse_pairs(m, m.len());
    lemma_sparse_distinct(m);
    lemma_sparse_to_is_from(m);
    lemma_sparse_from_is_to(m);
}

proof fn lemma_scatter_len<T>(pairs: Seq<(usize, usize)>, fwd: bool, base: Seq<T>, snap: Seq<T>, k: nat)
    requires
        k <= pairs.len(),
        within(pairs, base.len()),
    ensures
        scatter(pairs, fwd, base, snap, k).len() == base.len(),
    decreases k,
{
    if k > 0 {
        lemma_scatter_len(pairs, fwd, base, snap, (k - 1) as nat);
    }
}

/// A position written by one of the first `k` pairs holds the snapshot's value
/// read by that pair.
proof fn lemma_scatter_hit<T>(
    pairs: Seq<(usize, usize)>,
    fwd: bool,
    base: Seq<T>,
    snap: Seq<T>,
    k: nat,
    i: int,
)
    requires
        0 <= i < k <= pairs.len(),
        pairs_wf(pairs),
        within(pairs, base.len()),
    ensures
        scatter(pairs, fwd, base, snap, k)[dst(pairs[i], fwd)] == snap[src(pairs[i], fwd)],
    decreases k,
{
    lemma_scatter_len(pairs, fwd, base, snap, (k - 1) as nat);
    if i < k - 1 {
        lemma_scatter_hit(pairs, fwd, base, snap, (k - 1) as nat, i);
        assert(pairs[i].0 != pairs[k - 1].0 && pairs[i].1 != pairs[k - 1].1);
    }
}

/// A position that none of the first `k` pairs writes keeps the base value.
proof fn lemma_scatter_miss<T>(
    pairs: Seq<(usize, usize)>,
    fwd: bool,
    base: Seq<T>,
    snap: Seq<T>,
    k: nat,
    j: int,
)
    requires
        k <= pairs.len(),
        within(pairs, base.len()),
        0 <= j < base.len(),
        forall|i: int| 0 <= i < k ==> dst(#[trigger] pairs[i], fwd) != j,
    ensures
        scatter(pairs, fwd, base, snap, k)[j] == base[j],
    decreases k,
{
    if k > 0 {
        lemma_scatter_len(pairs, fwd, base, snap, (k - 1) as nat);
        assert(dst(pairs[k - 1], fwd) != j);
        lemma_scatter_miss(pairs, fwd, base, snap, (k - 1) as nat, j);
    }
}

/// The pair that reads, in direction `fwd`, the position that pair `i` writes.
proof fn partner(pairs: Seq<(usize, usize)>, i: int, fwd: bool) -> (q: int)
    requires
        pairs_wf(pairs),
        0 <= i < pairs.len(),
    ensures
        0 <= q < pairs.len(),
        src(pairs[q], fwd) == dst(pairs[i], fwd),
{
    let p = pairs[i];
    if fwd {
        assert(has_pair_to(pairs, p.0 as int));
        assert(exists|q: int| 0 <= q < pairs.len() && #[trigger] pairs[q].1 == p.0) by {
            reveal(has_pair_to);
        }
        choose|q: int| 0 <= q < pairs.len() && #[trigger] pairs[q].1 == p.0
    } else {
        assert(has_pair_from(pairs, p.1 as int));
        assert(exists|q: int| 0 <= q < pairs.len() && #[trigger] pairs[q].0 == p.1) by {
            reveal(has_pair_from);
        }
        choose|q: int| 0 <= q < pairs.len() && #[trigger] pairs[q].0 == p.1
    }
}

proof fn lemma_step_cancel_at<T>(pairs: Seq<(usize, usize)>, fwd: bool, s: Seq<T>, j: int)
    requires
        pairs_wf(pairs),
        within(pairs, s.len()),
        0 <= j < s.len(),
    ensures
        step(pairs, !fwd, step(pairs, fwd, s))[j] == s[j],
{
    let n = pairs.len();
    let t = step(pairs, fwd, s);
    lemma_scatter_len(pairs, fwd, s, s, n);
    if exists|i: int| 0 <= i < n && dst(#[trigger] pairs[i], !fwd) == j {
        let i = choose|i: int| 0 <= i < n && dst(#[trigger] pairs[i], !fwd) == j;
        lemma_scatter_hit(pairs, !fwd, t, t, n, i);
        lemma_scatter_hit(pairs, fwd, s, s, n, i);
    } else {
        lemma_scatter_miss(pairs, !fwd, t, t, n, j);
        if exists|i: int| 0 <= i < n && dst(#[trigger] pairs[i], fwd) == j {
            let i = choose|i: int| 0 <= i < n && dst(#[trigger] pairs[i], fwd) == j;
            let q = partner(pairs, i, fwd);
            assert(dst(pairs[q], !fwd) == j);
        } else {
            lemma_scatter_miss(pairs, fwd, s, s, n, j);
        }
    }
}

/// One step in one direction followed by one step in the other gives back the
/// labeling.
proof fn lemma_step_cancel<T>(pairs: Seq<(usize, usize)>, fwd: bool, s: Seq<T>)
    requires
        pairs_wf(pairs),
        within(pairs, s.len()),
    ensures
        step(pairs, !fwd, step(pairs, fwd, s)) == s,
{
    let t = step(pairs, fwd, s);
    lemma_scatter_len(pairs, fwd, s, s, pairs.len());
    lemma_scatter_len(pairs, !fwd, t, t, pairs.len());
    let u = step(pairs, !fwd, t);
    assert forall|j: int| 0 <= j < s.len() implies u[j] == s[j] by {
        lemma_step_cancel_at(pairs, fwd, s, j);
    }
    assert(u =~= s);
}

proof fn lemma_iterate_len<T>(pairs: Seq<(usize, usize)>, fwd: bool, s: Seq<T>, c: nat)
    requires
        pairs_wf(pairs),
        within(pairs, s.len()),
    ensures
        iterate(pairs, fwd, s, c).len() == s.len(),
    decreases c,
{
    if c > 0 {
        lemma_iterate_len(pairs, fwd, s, (c - 1) as nat);
        lemma_scatter_len(
            pairs,
            fwd,
            iterate(pairs, fwd, s, (c - 1) as nat),
            iterate(pairs, fwd, s, (c - 1) as nat),
            pairs.len(),
        );
    }
}

/// `a` steps and then `b` more are `a + b` steps.
proof fn lemma_iterate_add<T>(pairs: Seq<(usize, usize)>, fwd: bool, s: Seq<T>, a: nat, b: nat)
    ensures
        iterate(pairs, fwd, iterate(pairs, fwd, s, a), b) == iterate(pairs, fwd, s, a + b),
    decreases b,
{
    if b > 0 {
        lemma_iterate_add(pairs, fwd, s, a, (b - 1) as nat);
        assert((a + b - 1) as nat == a + (b - 1) as nat);
    }
}

/// `c` steps in one direction are undone by `c` steps in the other.
proof fn lemma_iterate_cancel<T>(pairs: Seq<(usize, usize)>, fwd: bool, s: Seq<T>, c: nat)
    requires
        pairs_wf(pairs),
        within(pairs, s.len()),
    ensures
        iterate(pairs, !fwd, iterate(pairs, fwd, s, c), c) == s,
    decreases c,
{
    if c > 0 {
        let s1 = iterate(pairs, fwd, s, (c - 1) as nat);
        let t = iterate(pairs, fwd, s, c);
        lemma_iterate_len(pairs, fwd, s, (c - 1) as nat);
        lemma_step_cancel(pairs, fwd, s1);
        lemma_iterate_add(pairs, !fwd, t, 1, (c - 1) as nat);
        assert(iterate(pairs, !fwd, t, 0) == t);
        assert(iterate(pairs, !fwd, t, 1) == step(pairs, !fwd, t));
        lemma_iterate_cancel(pairs, fwd, s, (c - 1) as nat);
    }
}

/// Applying a permutation with power zero leaves every labeling unchanged.
pub proof fn lemma_power_zero<T>(p: SparsePermutation, s: Seq<T>)
    ensures
        apply_pow(p@, s, 0) == s,
{
}

/// Applying a permutation with power `k` and then with power `-k` gives back
/// the labeling.
pub proof fn lemma_inverse<T>(p: SparsePermutation, s: Seq<T>, k: int)
    requires
        p.wf(),
        p.fits(s.len()),
    ensures
        apply_pow(p@, apply_pow(p@, s, k), -k) == s,
{
    if k > 0 {
        lemma_iterate_cancel(p@, true, s, k as nat);
    } else if k < 0 {
        lemma_iterate_cancel(p@, false, s, (-k) as nat);
    }
}

/// Power `k` is power `1` applied `k` times in turn for `k > 0`, and power
/// `-1` applied `-k` times in turn for `k < 0`: each is the previous power
/// followed by one more single application.
pub proof fn lemma_power_step<T>(p: SparsePermutation, s: Seq<T>, k: int)
    ensures
        k > 0 ==> apply_pow(p@, s, k) == apply_pow(p@, apply_pow(p@, s, k - 1), 1),
        k < 0 ==> apply_pow(p@, s, k) == apply_pow(p@, apply_pow(p@, s, k + 1), -1),
{
    if k > 0 {
        lemma_iterate_add(p@, true, s, (k - 1) as nat, 1);
    } else if k < 0 {
        lemma_iterate_add(p@, false, s, (-(k + 1)) as nat, 1);
    }
}

/// Powers of one sign add up: power `a` followed by power `b` is power `a + b`.
pub proof fn lemma_power_add<T>(p: SparsePermutation, s: Seq<T>, a: int, b: int)
    requires
        (a >= 0 && b >= 0) || (a <= 0 && b <= 0),
    ensures
        apply_pow(p@, apply_pow(p@, s, a), b) == apply_pow(p@, s, a + b),
{
    if a >= 0 && b >= 0 {
        lemma_iterate_add(p@, true, s, a as nat, b as nat);
    } else if a == 0 {
        lemma_iterate_add(p@, false, s, 0, (-b) as nat);
    } else if b == 0 {
    } else {
        lemma_iterate_add(p@, false, s, (-a) as nat, (-b) as nat);
    }
}

/// The pair count of a built permutation is the number of positions its
/// mapping moves, and no stored pair is a fixed point.
pub proof fn lemma_sparsity(m: Seq<usize>)
    requires
        m.len() <= usize::MAX,
    ensures
        sparse_pairs(m, m.len()).len() == num_moved(m, m.len()),
        forall|k: int|
            0 <= k < sparse_pairs(m, m.len()).len() ==> #[trigger] sparse_pairs(m, m.len())[k].0
                != sparse_pairs(m, m.len())[k].1,
{
    lemma_sparse_len(m, m.len());
    lemma_sparse_pairs(m, m.len());
}

} // verus!
