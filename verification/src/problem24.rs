//! Permutations in the order of their positions, written out as text.

use itertools::Itertools;
use vstd::prelude::*;
use vstd::slice::slice_to_vec;

verus! {

/// Every sequence of `tails` with `head` put in front.
pub open spec fn with_head<T>(head: T, tails: Seq<Seq<T>>) -> Seq<Seq<T>> {
    Seq::new(tails.len(), |i: int| seq![head] + tails[i])
}

/// The permutations of `s`: first those that begin with its first element,
/// then those that begin with its second, and so on, each group in the
/// order of the permutations of the other elements.
///
/// The two orders of a pair are where the construction starts, so a
/// sequence of fewer than two elements has no permutations here.
pub open spec fn permutations<T>(s: Seq<T>) -> Seq<Seq<T>>
    decreases s.len(), s.len() + 1,
{
    if s.len() == 2 {
        seq![seq![s[0], s[1]], seq![s[1], s[0]]]
    } else {
        leading_groups(s, s.len())
    }
}

/// The permutations of `s` that begin with one of its first `upto` elements.
pub open spec fn leading_groups<T>(s: Seq<T>, upto: nat) -> Seq<Seq<T>>
    decreases s.len(), upto,
{
    if upto == 0 || upto > s.len() {
        Seq::empty()
    } else {
        leading_groups(s, (upto - 1) as nat) + with_head(
            s[upto - 1],
            permutations(s.remove(upto - 1)),
        )
    }
}

/// The contents of each vector of `v`.
pub open spec fn views<T>(v: Seq<Vec<T>>) -> Seq<Seq<T>> {
    Seq::new(v.len(), |i: int| v[i]@)
}

/// The character for a decimal digit.
pub open spec fn digit_char(d: nat) -> char {
    if d == 0 {
        '0'
    } else if d == 1 {
        '1'
    } else if d == 2 {
        '2'
    } else if d == 3 {
        '3'
    } else if d == 4 {
        '4'
    } else if d == 5 {
        '5'
    } else if d == 6 {
        '6'
    } else if d == 7 {
        '7'
    } else if d == 8 {
        '8'
    } else {
        '9'
    }
}

/// The decimal notation of `n`.
pub open spec fn decimal_text(n: nat) -> Seq<char>
    decreases n,
{
    if n < 10 {
        seq![digit_char(n)]
    } else {
        decimal_text(n / 10).push(digit_char(n % 10))
    }
}

/// The decimal notations of the numbers of `s`, one after the other with
/// nothing in between.
pub open spec fn joined_decimal(s: Seq<usize>) -> Seq<char>
    decreases s.len(),
{
    if s.len() == 0 {
        Seq::empty()
    } else {
        joined_decimal(s.drop_last()) + decimal_text(s.last() as nat)
    }
}

/// `Itertools::join` with an empty separator: the elements as `Display`
/// writes them, which for `usize` is decimal notation, one after the other.
#[verifier::external_body]
fn join_numbers(xs: &Vec<usize>) -> (text: String)
    ensures
        text@ == joined_decimal(xs@),
{
    xs.iter().join("")
}

/// The permutations of `xs`, in the order of `permutations`.
pub fn state<T: Copy>(xs: &[T]) -> (result: Vec<Vec<T>>)
    ensures
        views(result@) == permutations(xs@),
    decreases xs.len(),
{
    if xs.len() == 2 {
        let mut first: Vec<T> = Vec::new();
        first.push(xs[0]);
        first.push(xs[1]);
        let mut second: Vec<T> = Vec::new();
        second.push(xs[1]);
        second.push(xs[0]);
        let mut both: Vec<Vec<T>> = Vec::new();
        both.push(first);
        both.push(second);
        assert(both@[0]@ =~= seq![xs@[0], xs@[1]]);
        assert(both@[1]@ =~= seq![xs@[1], xs@[0]]);
        assert(views(both@) =~= permutations(xs@));
        return both;
    }
    let mut result: Vec<Vec<T>> = Vec::new();
    let mut idx: usize = 0;
    assert(views(result@) =~= leading_groups(xs@, 0));
    while idx < xs.len()
        invariant
            xs.len() != 2,
            idx <= xs.len(),
            views(result@) == leading_groups(xs@, idx as nat),
        decreases xs.len() - idx,
    {
        let elem = xs[idx];
        let mut rest = slice_to_vec(xs);
        rest.remove(idx);
        let tails = state(rest.as_slice());
        let ghost done = views(result@);
        let ghost group = with_head(elem, permutations(xs@.remove(idx as int)));
        let mut k: usize = 0;
        assert(done + group.take(0) =~= done);
        while k < tails.len()
            invariant
                k <= tails.len(),
                views(tails@) == permutations(xs@.remove(idx as int)),
                group == with_head(elem, permutations(xs@.remove(idx as int))),
                views(result@) == done + group.take(k as int),
            decreases tails.len() - k,
        {
            let tail = &tails[k];
            let mut permutation: Vec<T> = Vec::new();
            permutation.push(elem);
            let mut m: usize = 0;
            while m < tail.len()
                invariant
                    m <= tail.len(),
                    permutation@ == seq![elem] + tail@.take(m as int),
                decreases tail.len() - m,
            {
                permutation.push(tail[m]);
                assert(tail@.take(m + 1) =~= tail@.take(m as int).push(tail@[m as int]));
                assert(seq![elem] + tail@.take(m + 1) =~= (seq![elem] + tail@.take(m as int)).push(
                    tail@[m as int],
                ));
                m = m + 1;
            }
            proof {
                assert(tail@.take(tail.len() as int) =~= tail@);
                assert(views(tails@)[k as int] == tail@);
                assert(group[k as int] == permutation@);
                assert(views(result@.push(permutation)) =~= views(result@).push(permutation@));
                assert(group.take(k + 1) =~= group.take(k as int).push(group[k as int]));
                assert((done + group.take(k as int)).push(group[k as int]) =~= done + group.take(
                    k + 1,
                ));
            }
            result.push(permutation);
            k = k + 1;
        }
        proof {
            assert(group.take(tails.len() as int) =~= group);
            assert(leading_groups(xs@, (idx + 1) as nat) == leading_groups(xs@, idx as nat)
                + group);
        }
        idx = idx + 1;
    }
    result
}

/// The permutations of `digits`, each written as one word.
pub fn lexical_perm(digits: &[usize]) -> (words: Vec<String>)
    ensures
        words.len() == permutations(digits@).len(),
        forall|i: int|
            0 <= i < words.len() ==> (#[trigger] words[i])@ == joined_decimal(
                permutations(digits@)[i],
            ),
{
    let perms = state(digits);
    let mut words: Vec<String> = Vec::new();
    let mut i: usize = 0;
    while i < perms.len()
        invariant
            i <= perms.len(),
            views(perms@) == permutations(digits@),
            words.len() == i,
            forall|j: int|
                0 <= j < i ==> (#[trigger] words[j])@ == joined_decimal(permutations(digits@)[j]),
        decreases perms.len() - i,
    {
        assert(views(perms@)[i as int] == perms[i as int]@);
        words.push(join_numbers(&perms[i]));
        i = i + 1;
    }
    assert(views(perms@).len() == perms.len());
    words
}

/// The ten digits in increasing order.
pub open spec fn ten_digits() -> Seq<usize> {
    seq![0, 1, 2, 3, 4, 5, 6, 7, 8, 9]
}

/// The permutation of the digits 0 to 9 at position `nth`, counted from 1,
/// written as one word.
pub fn solve(nth: usize) -> (word: String)
    requires
        1 <= nth <= permutations(ten_digits()).len(),
    ensures
        word@ == joined_decimal(permutations(ten_digits())[nth - 1]),
{
    let digits: Vec<usize> = vec![0, 1, 2, 3, 4, 5, 6, 7, 8, 9];
    assert(digits@ =~= ten_digits());
    let words = lexical_perm(digits.as_slice());
    words[nth - 1].clone()
}

} // verus!
