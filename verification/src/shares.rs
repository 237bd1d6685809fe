//! Fair division of an amount into shares.

use vstd::prelude::*;

verus! {

/// Sum of the values of a sequence.
pub open spec fn total(s: Seq<u64>) -> int
    decreases s.len(),
{
    if s.len() == 0 {
        0
    } else {
        total(s.drop_last()) + s.last()
    }
}

/// The share at position `i` when `amount` is divided into `n` shares: the
/// quotient, and one more for the first `amount % n` positions.
pub open spec fn share(amount: u64, n: u64, i: int) -> int
    recommends
        n > 0,
{
    amount / n + if i < amount % n {
        1int
    } else {
        0int
    }
}

/// The sequence of all `n` shares of `amount`.
pub open spec fn shares_of(amount: u64, n: u64) -> Seq<u64> {
    Seq::new(n as nat, |i: int| share(amount, n, i) as u64)
}

/// Every share fits into 64 bits.
pub proof fn lemma_share_bounds(amount: u64, n: u64, i: int)
    requires
        n > 0,
        0 <= i,
    ensures
        0 <= share(amount, n, i) <= amount,
{
    let q = amount / n;
    let r = amount % n;
    assert(amount == q * n + r) by (nonlinear_arith)
        requires
            q == amount / n,
            r == amount % n,
            n > 0,
    ;
    assert(q * n >= q) by (nonlinear_arith)
        requires
            n >= 1,
            q >= 0,
    ;
}

/// Sum of the first `k` shares.
proof fn lemma_prefix_total(amount: u64, n: u64, k: nat)
    requires
        n > 0,
        k <= n,
    ensures
        total(shares_of(amount, n).take(k as int)) == k * (amount / n) + if k <= amount % n {
            k as int
        } else {
            (amount % n) as int
        },
    decreases k,
{
    let s = shares_of(amount, n);
    let q = (amount / n) as int;
    if k == 0 {
        assert(s.take(0).len() == 0);
        assert(0 * q == 0);
    } else {
        let j = (k - 1) as nat;
        lemma_prefix_total(amount, n, j);
        lemma_share_bounds(amount, n, j as int);
        assert(s.take(k as int).drop_last() =~= s.take(j as int));
        assert(s.take(k as int).last() == share(amount, n, j as int));
        assert(k * q == j * q + q) by (nonlinear_arith)
            requires
                k == j + 1,
        ;
    }
}

/// Dividing an amount into a positive number of shares loses nothing and
/// favours nobody: the shares add up to the amount, any two of them differ by
/// at most one, and no share is smaller than one that comes after it.
pub proof fn lemma_distribute_is_fair(amount: u64, n: u64)
    requires
        n > 0,
    ensures
        shares_of(amount, n).len() == n,
        total(shares_of(amount, n)) == amount,
        forall|i: int, j: int|
            0 <= i < n && 0 <= j < n ==> -1 <= #[trigger] shares_of(amount, n)[i]
                - #[trigger] shares_of(amount, n)[j] <= 1,
        forall|i: int, j: int|
            0 <= i <= j < n ==> #[trigger] shares_of(amount, n)[i] >= #[trigger] shares_of(
                amount,
                n,
            )[j],
{
    let s = shares_of(amount, n);
    let q = amount / n;
    let r = amount % n;
    lemma_prefix_total(amount, n, n as nat);
    assert(s.take(n as int) =~= s);
    assert(amount == n * q + r) by (nonlinear_arith)
        requires
            q == amount / n,
            r == amount % n,
            n > 0,
    ;
    assert forall|i: int| 0 <= i < n implies #[trigger] s[i] == share(amount, n, i) by {
        lemma_share_bounds(amount, n, i);
    }
}

/// Distributes an amount across the given number of shares as fairly as
/// possible: `distribute(5, 3)` is `[2, 2, 1]`.
pub fn distribute(amount: u64, n: u64) -> (shares: Vec<u64>)
    requires
        n <= usize::MAX,
    ensures
        shares@ == shares_of(amount, n),
{
    if n == 0 {
        let empty: Vec<u64> = Vec::new();
        assert(empty@ =~= shares_of(amount, n));
        return empty;
    }
    let avg: u64 = amount / n;
    let remainder: u64 = amount % n;
    let mut shares: Vec<u64> = Vec::new();
    let mut i: u64 = 0;
    while i < n
        invariant
            n > 0,
            i <= n,
            avg == amount / n,
            remainder == amount % n,
            shares@.len() == i,
            forall|k: int| 0 <= k < i ==> #[trigger] shares@[k] == share(amount, n, k),
        decreases n - i,
    {
        proof {
            lemma_share_bounds(amount, n, i as int);
        }
        if i < remainder {
            shares.push(avg + 1);
        } else {
            shares.push(avg);
        }
        i = i + 1;
    }
    proof {
        assert forall|k: int| 0 <= k < n implies shares@[k] == #[trigger] shares_of(amount, n)[k] by {
            lemma_share_bounds(amount, n, k);
        }
        assert(shares@ =~= shares_of(amount, n));
    }
    shares
}

} // verus!
