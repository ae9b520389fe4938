//! The ways to pay an amount with a given set of coins.

use vstd::prelude::*;
use vstd::slice::slice_to_vec;

verus! {

/// Every sequence of `tails`, with `(n, coin)` put in front when `n > 0`.
pub open spec fn with_coin(n: u32, coin: u32, tails: Seq<Seq<(u32, u32)>>) -> Seq<Seq<(u32, u32)>> {
    Seq::new(
        tails.len(),
        |i: int|
            if n > 0 {
                seq![(n, coin)] + tails[i]
            } else {
                tails[i]
            },
    )
}

/// The ways to pay `target` with `coins`. A way lists `(count, coin)` for
/// each coin used, largest coin first. What the larger coins leave is paid
/// in the first coin, which is taken to be 1: it comes last, as
/// `(rest, 1)`, unless the larger coins pay all of `target`.
///
/// The ways are ordered by the count of the last coin, then by the count of
/// the one before it, and so on.
pub open spec fn all_ways(coins: Seq<u32>, target: u32) -> Seq<Seq<(u32, u32)>>
    decreases coins.len(), target + 2,
{
    if coins.len() <= 1 {
        seq![seq![(target, 1u32)]]
    } else if coins.last() == 0 {
        Seq::empty()
    } else {
        ways_using(coins, target, (target / coins.last() + 1) as nat)
    }
}

/// The ways to pay `target` with `coins` that use the last coin fewer than
/// `upto` times.
pub open spec fn ways_using(coins: Seq<u32>, target: u32, upto: nat) -> Seq<Seq<(u32, u32)>>
    decreases coins.len(), upto,
{
    if upto == 0 || coins.len() <= 1 {
        Seq::empty()
    } else {
        ways_using(coins, target, (upto - 1) as nat) + ways_with(coins, target, (upto - 1) as nat)
    }
}

/// The ways to pay `target` with `coins` that use the last coin exactly `n` times.
pub open spec fn ways_with(coins: Seq<u32>, target: u32, n: nat) -> Seq<Seq<(u32, u32)>>
    decreases coins.len(), 0nat,
{
    let coin = coins.last();
    if coins.len() <= 1 {
        Seq::empty()
    } else if n * coin < target {
        with_coin(n as u32, coin, all_ways(coins.drop_last(), (target - n * coin) as u32))
    } else if n * coin == target {
        seq![seq![(n as u32, coin)]]
    } else {
        Seq::empty()
    }
}

/// The contents of each vector of `v`.
pub open spec fn views(v: Seq<Vec<(u32, u32)>>) -> Seq<Seq<(u32, u32)>> {
    Seq::new(v.len(), |i: int| v[i]@)
}

/// The ways to pay `target` with `coins`, in the order of `all_ways`.
///
/// There has to be a coin, and only the first may be zero.
pub fn ways(coins: Vec<u32>, target: u32) -> (result: Vec<Vec<(u32, u32)>>)
    requires
        coins.len() >= 1,
        forall|i: int| 1 <= i < coins.len() ==> #[trigger] coins[i] > 0,
    ensures
        views(result@) == all_ways(coins@, target),
    decreases coins.len(),
{
    let ghost all = coins@;
    let mut result: Vec<Vec<(u32, u32)>> = Vec::new();
    if coins.len() == 1 {
        let mut only: Vec<(u32, u32)> = Vec::new();
        only.push((target, 1));
        result.push(only);
        assert(result@[0]@ =~= seq![(target, 1u32)]);
        assert(views(result@) =~= all_ways(all, target));
        return result;
    }
    let mut smaller = coins;
    let my_coin = smaller.pop().unwrap();
    assert(my_coin == all[all.len() - 1]);
    assert(smaller@ =~= all.drop_last());
    let most = target / my_coin;
    let mut n: u32 = 0;
    assert(views(result@) =~= ways_using(all, target, 0));
    loop
        invariant_except_break
            views(result@) == ways_using(all, target, n as nat),
        invariant
            all.len() >= 2,
            my_coin == all.last(),
            my_coin > 0,
            smaller@ == all.drop_last(),
            all.len() == coins.len(),
            forall|i: int| 1 <= i < all.len() ==> #[trigger] all[i] > 0,
            most == target / my_coin,
            n <= most,
        ensures
            views(result@) == ways_using(all, target, (most + 1) as nat),
        decreases most - n,
    {
        assert(n * my_coin <= target) by (nonlinear_arith)
            requires
                n <= target / my_coin,
                my_coin > 0,
        ;
        let ghost done = views(result@);
        let ghost group = ways_with(all, target, n as nat);
        if n * my_coin < target {
            let remaining = target - n * my_coin;
            let tails = self::ways(slice_to_vec(smaller.as_slice()), remaining);
            let mut k: usize = 0;
            assert(done + group.take(0) =~= done);
            while k < tails.len()
                invariant
                    k <= tails.len(),
                    views(tails@) == all_ways(all.drop_last(), remaining),
                    group == with_coin(n, my_coin, all_ways(all.drop_last(), remaining)),
                    views(result@) == done + group.take(k as int),
                decreases tails.len() - k,
            {
                let tail = &tails[k];
                let mut other_coins: Vec<(u32, u32)> = Vec::new();
                if n > 0 {
                    other_coins.push((n, my_coin));
                }
                let ghost head = other_coins@;
                let mut m: usize = 0;
                assert(head + tail@.take(0) =~= head);
                while m < tail.len()
                    invariant
                        m <= tail.len(),
                        other_coins@ == head + tail@.take(m as int),
                    decreases tail.len() - m,
                {
                    other_coins.push(tail[m]);
                    assert(head + tail@.take(m + 1) =~= (head + tail@.take(m as int)).push(
                        tail@[m as int],
                    ));
                    m = m + 1;
                }
                proof {
                    assert(tail@.take(tail.len() as int) =~= tail@);
                    assert(views(tails@)[k as int] == tail@);
                    assert(group[k as int] =~= other_coins@);
                    assert(views(result@.push(other_coins)) =~= views(result@).push(other_coins@));
                    assert((done + group.take(k as int)).push(group[k as int]) =~= done
                        + group.take(k + 1));
                }
                result.push(other_coins);
                k = k + 1;
            }
            assert(group.take(tails.len() as int) =~= group);
        } else if n * my_coin == target {
            let mut exact: Vec<(u32, u32)> = Vec::new();
            exact.push((n, my_coin));
            proof {
                assert(exact@ =~= seq![(n, my_coin)]);
                assert(views(result@.push(exact)) =~= done + group);
            }
            result.push(exact);
        } else {
            assert(done + group =~= done);
        }
        assert(views(result@) == ways_using(all, target, (n + 1) as nat));
        if n == most {
            break ;
        }
        n = n + 1;
    }
    result
}

/// The coins in circulation, in pence.
pub open spec fn coin_set() -> Seq<u32> {
    seq![1u32, 2u32, 5u32, 10u32, 20u32, 50u32, 100u32, 200u32]
}

/// The number of ways to pay two pounds with the coins in circulation.
pub fn solve() -> (count: usize)
    ensures
        count == all_ways(coin_set(), 200).len(),
{
    let coins: Vec<u32> = vec![1, 2, 5, 10, 20, 50, 100, 200];
    assert(coins@ =~= coin_set());
    let found = self::ways(coins, 200);
    assert(views(found@).len() == found.len());
    found.len()
}

} // verus!
