//! Counting the positions at which something holds.

use vstd::prelude::*;

verus! {

/// How many positions below `n` satisfy `p`.
pub open spec fn tally(p: spec_fn(int) -> bool, n: nat) -> nat
    decreases n,
{
    if n == 0 {
        0
    } else {
        tally(p, (n - 1) as nat) + if p(n - 1) {
            1nat
        } else {
            0nat
        }
    }
}

/// Two conditions that agree below `n` are met equally often.
pub proof fn lemma_tally_same(p: spec_fn(int) -> bool, q: spec_fn(int) -> bool, n: nat)
    requires
        forall|i: int| 0 <= i < n ==> #[trigger] p(i) == q(i),
    ensures
        tally(p, n) == tally(q, n),
    decreases n,
{
    if n > 0 {
        lemma_tally_same(p, q, (n - 1) as nat);
    }
}

/// Conditions that agree but at `j` differ in their tally by what changed there.
pub proof fn lemma_tally_change(
    p: spec_fn(int) -> bool,
    q: spec_fn(int) -> bool,
    n: nat,
    j: int,
)
    requires
        0 <= j < n,
        forall|i: int| 0 <= i < n && i != j ==> #[trigger] p(i) == q(i),
    ensures
        tally(q, n) + (if p(j) {
            1int
        } else {
            0
        }) == tally(p, n) + (if q(j) {
            1int
        } else {
            0
        }),
    decreases n,
{
    if j == n - 1 {
        lemma_tally_same(p, q, (n - 1) as nat);
    } else {
        lemma_tally_change(p, q, (n - 1) as nat, j);
    }
}

/// A tally never exceeds the number of positions, and reaches it only where
/// every position counts.
pub proof fn lemma_tally_bound(p: spec_fn(int) -> bool, n: nat)
    ensures
        tally(p, n) <= n,
        tally(p, n) == n ==> forall|i: int| 0 <= i < n ==> #[trigger] p(i),
    decreases n,
{
    if n > 0 {
        lemma_tally_bound(p, (n - 1) as nat);
    }
}

/// A condition that implies another is met no more often.
pub proof fn lemma_tally_implies(p: spec_fn(int) -> bool, q: spec_fn(int) -> bool, n: nat)
    requires
        forall|i: int| 0 <= i < n && #[trigger] p(i) ==> q(i),
    ensures
        tally(p, n) <= tally(q, n),
    decreases n,
{
    if n > 0 {
        lemma_tally_implies(p, q, (n - 1) as nat);
    }
}

/// More positions never give a smaller tally.
pub proof fn lemma_tally_grows(p: spec_fn(int) -> bool, m: nat, n: nat)
    requires
        m <= n,
    ensures
        tally(p, m) <= tally(p, n) <= tally(p, m) + (n - m),
    decreases n,
{
    if m < n {
        lemma_tally_grows(p, m, (n - 1) as nat);
    }
}

/// The sum of `f` over the positions below `n`.
pub open spec fn total(f: spec_fn(int) -> int, n: nat) -> int
    decreases n,
{
    if n == 0 {
        0
    } else {
        total(f, (n - 1) as nat) + f(n - 1)
    }
}

/// Terms that agree have one sum.
pub proof fn lemma_total_same(f: spec_fn(int) -> int, g: spec_fn(int) -> int, n: nat)
    requires
        forall|i: int| 0 <= i < n ==> #[trigger] f(i) == g(i),
    ensures
        total(f, n) == total(g, n),
    decreases n,
{
    if n > 0 {
        lemma_total_same(f, g, (n - 1) as nat);
        assert(f(n - 1) == g(n - 1));
    }
}

/// A sum of bounded terms is bounded.
pub proof fn lemma_total_bound(f: spec_fn(int) -> int, n: nat, lo: int, hi: int)
    requires
        forall|i: int| 0 <= i < n ==> lo <= #[trigger] f(i) <= hi,
    ensures
        n * lo <= total(f, n) <= n * hi,
    decreases n,
{
    if n > 0 {
        let m = (n - 1) as nat;
        lemma_total_bound(f, m, lo, hi);
        assert(lo <= f(n - 1) <= hi);
        assert(n * lo == m * lo + lo) by (nonlinear_arith)
            requires
                n == m + 1,
        ;
        assert(n * hi == m * hi + hi) by (nonlinear_arith)
            requires
                n == m + 1,
        ;
    } else {
        assert(n * lo == 0 && n * hi == 0) by (nonlinear_arith)
            requires
                n == 0,
        ;
    }
}

/// The values of `f` at the positions below `n` where it has one, in order.
pub open spec fn gather<T>(f: spec_fn(int) -> Option<T>, n: nat) -> Seq<T>
    decreases n,
{
    if n == 0 {
        Seq::empty()
    } else {
        match f(n - 1) {
            Some(x) => gather(f, (n - 1) as nat).push(x),
            None => gather(f, (n - 1) as nat),
        }
    }
}

/// What meets a condition and what does not make up everything; nothing is counted where nothing
/// meets it, and a count never goes down as more is looked at.
pub proof fn law_counts_are_complete(p: spec_fn(int) -> bool, n: nat)
    ensures
        tally(p, n) + tally(|i: int| !p(i), n) == n,
        tally(p, n) == 0 <==> (forall|i: int| 0 <= i < n ==> !#[trigger] p(i)),
        tally(p, n) == n <==> (forall|i: int| 0 <= i < n ==> #[trigger] p(i)),
        tally(p, n) <= tally(p, n + 1) <= tally(p, n) + 1,
    decreases n,
{
    if n > 0 {
        let m = (n - 1) as nat;
        law_counts_are_complete(p, m);
        lemma_tally_bound(p, m);
        assert(!p(m as int) ==> tally(p, n) < n);
        assert(p(m as int) ==> tally(p, n) > 0);
        if tally(p, n) == 0 {
            assert(tally(p, m) == 0);
        }
        if tally(p, n) == n {
            assert(tally(p, m) == m);
        }
    }
}

/// What is gathered is everything that there is to gather, each thing once and in its order.
pub proof fn law_gathering_keeps_all_in_order<T>(f: spec_fn(int) -> Option<T>, n: nat)
    ensures
        gather(f, n).len() == tally(|i: int| f(i) is Some, n),
        forall|i: int|
            0 <= i < n && #[trigger] f(i) is Some ==> {
                &&& tally(|j: int| f(j) is Some, i as nat) < gather(f, n).len()
                &&& gather(f, n)[tally(|j: int| f(j) is Some, i as nat) as int] == f(i)->0
            },
        forall|k: int|
            0 <= k < gather(f, n).len() ==> exists|i: int|
                0 <= i < n && #[trigger] f(i) == Some(#[trigger] gather(f, n)[k]),
    decreases n,
{
    let there = |j: int| f(j) is Some;
    if n > 0 {
        let m = (n - 1) as nat;
        law_gathering_keeps_all_in_order(f, m);
        let before = gather(f, m);
        assert(there(m as int) == f(m as int) is Some);
        assert forall|i: int| 0 <= i < n && #[trigger] f(i) is Some implies tally(
            there,
            i as nat,
        ) < gather(f, n).len() && gather(f, n)[tally(there, i as nat) as int] == f(i)->0 by {
            if i < m {
                assert(tally(there, i as nat) < before.len());
            }
        }
        assert forall|k: int| 0 <= k < gather(f, n).len() implies exists|i: int|
            0 <= i < n && #[trigger] f(i) == Some(#[trigger] gather(f, n)[k]) by {
            if k < before.len() {
                assert(gather(f, n)[k] == before[k]);
                let i = choose|i: int| 0 <= i < m && #[trigger] f(i) == Some(before[k]);
                assert(f(i) == Some(gather(f, n)[k]));
            } else {
                assert(f(m as int) == Some(gather(f, n)[k]));
            }
        }
    }
}

/// Sums add up: the sum of two lists is that of their sums, and that of equal terms a multiple.
pub proof fn law_sums_are_linear(f: spec_fn(int) -> int, g: spec_fn(int) -> int, c: int, n: nat)
    ensures
        total(|i: int| f(i) + g(i), n) == total(f, n) + total(g, n),
        total(|i: int| c * f(i), n) == c * total(f, n),
        total(|i: int| c, n) == c * n,
        total(f, n + 1) == total(f, n) + f(n as int),
    decreases n,
{
    if n > 0 {
        let m = (n - 1) as nat;
        law_sums_are_linear(f, g, c, m);
        assert(c * (total(f, m) + f(m as int)) == c * total(f, m) + c * f(m as int))
            by (nonlinear_arith);
        assert(c * n == c * m + c) by (nonlinear_arith)
            requires
                n == m + 1,
        ;
    } else {
        assert(c * total(f, 0) == 0) by (nonlinear_arith)
            requires
                total(f, 0) == 0,
        ;
        assert(c * n == 0) by (nonlinear_arith)
            requires
                n == 0,
        ;
    }
}

/// Sorting things into buckets loses none: where each has one, the buckets hold all of them.
pub proof fn law_buckets_hold_everything(bucket: spec_fn(int) -> int, n: nat, buckets: nat)
    requires
        forall|i: int| 0 <= i < n ==> 0 <= #[trigger] bucket(i) < buckets,
    ensures
        total(|b: int| tally(|i: int| bucket(i) == b, n) as int, buckets) == n,
    decreases n,
{
    let counts = |b: int| tally(|i: int| bucket(i) == b, n) as int;
    if n == 0 {
        lemma_total_same(counts, |b: int| 0, buckets);
        law_sums_are_linear(counts, counts, 0, buckets);
    } else {
        let m = (n - 1) as nat;
        law_buckets_hold_everything(bucket, m, buckets);
        let before = |b: int| tally(|i: int| bucket(i) == b, m) as int;
        let home = bucket(m as int);
        let here = |b: int|
            if b == home {
                1int
            } else {
                0int
            };
        assert forall|b: int| 0 <= b < buckets implies #[trigger] counts(b) == before(b) + here(b) by {
            let p = |i: int| bucket(i) == b;
            assert(tally(p, n) == tally(p, m) + if p(m as int) {
                1nat
            } else {
                0nat
            });
        }
        lemma_total_same(counts, |b: int| before(b) + here(b), buckets);
        law_sums_are_linear(before, here, 0, buckets);
        lemma_one_term(home, buckets);
    }
}

proof fn lemma_one_term(home: int, n: nat)
    requires
        home >= 0,
    ensures
        total(
            |b: int|
                if b == home {
                    1int
                } else {
                    0int
                },
            n,
        ) == (if home < n {
            1int
        } else {
            0int
        }),
    decreases n,
{
    if n > 0 {
        lemma_one_term(home, (n - 1) as nat);
    }
}

} // verus!
