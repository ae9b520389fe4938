//! Name scores: the letters of each name counted by their place in the
//! alphabet, weighted by the place of the name in the sorted list.

use vstd::prelude::*;
use vstd::utf8::encode_utf8;

verus! {

/// The bytes of a name add up to this, each counted from `A` = 1.
pub open spec fn letter_score(bytes: Seq<u8>) -> int
    decreases bytes.len(),
{
    if bytes.len() == 0 {
        0
    } else {
        letter_score(bytes.drop_last()) + (bytes.last() - 64)
    }
}

/// No byte lies below `@`, the character before `A`.
pub open spec fn is_scorable(bytes: Seq<u8>) -> bool {
    forall|i: int| 0 <= i < bytes.len() ==> #[trigger] bytes[i] >= 64
}

/// `s` without the double quotes at its start.
pub open spec fn without_leading_quotes(s: Seq<char>) -> Seq<char>
    decreases s.len(),
{
    if s.len() > 0 && s[0] == '"' {
        without_leading_quotes(s.drop_first())
    } else {
        s
    }
}

/// `s` without the double quotes at its end.
pub open spec fn without_trailing_quotes(s: Seq<char>) -> Seq<char>
    decreases s.len(),
{
    if s.len() > 0 && s.last() == '"' {
        without_trailing_quotes(s.drop_last())
    } else {
        s
    }
}

/// `s` without the double quotes at its start and at its end.
pub open spec fn without_quotes(s: Seq<char>) -> Seq<char> {
    without_trailing_quotes(without_leading_quotes(s))
}

/// `a` does not come after `b` when both are compared byte by byte.
pub open spec fn bytes_le(a: Seq<u8>, b: Seq<u8>) -> bool
    decreases a.len(),
{
    if a.len() == 0 {
        true
    } else if b.len() == 0 {
        false
    } else if a[0] != b[0] {
        a[0] < b[0]
    } else {
        bytes_le(a.drop_first(), b.drop_first())
    }
}

/// The names of `raw` with their quotes removed.
pub open spec fn bare_names(raw: Seq<String>) -> Seq<Seq<char>> {
    Seq::new(raw.len(), |i: int| without_quotes(raw[i]@))
}

/// The texts of the string slices of `v`.
pub open spec fn texts(v: Seq<&str>) -> Seq<Seq<char>> {
    Seq::new(v.len(), |i: int| v[i]@)
}

/// `order` holds the names of `names`, each as often, sorted byte by byte.
pub open spec fn is_sorted_arrangement(order: Seq<Seq<char>>, names: Seq<Seq<char>>) -> bool {
    &&& order.to_multiset() == names.to_multiset()
    &&& forall|i: int, j: int|
        0 <= i < j < order.len() ==> bytes_le(
            encode_utf8(#[trigger] order[i]),
            encode_utf8(#[trigger] order[j]),
        )
}

/// The scores of the first `upto` names of `order`, each times the place
/// of its name, counted from 1.
pub open spec fn weighted_score(order: Seq<Seq<char>>, upto: int) -> int
    decreases upto,
{
    if upto <= 0 {
        0
    } else {
        weighted_score(order, upto - 1) + upto * letter_score(encode_utf8(order[upto - 1]))
    }
}

/// The score of a name never falls with more letters.
pub proof fn lemma_letter_score_grows(bytes: Seq<u8>, i: int)
    requires
        is_scorable(bytes),
        0 <= i <= bytes.len(),
    ensures
        0 <= letter_score(bytes.take(i)) <= letter_score(bytes),
    decreases bytes.len() - i,
{
    if i < bytes.len() {
        lemma_letter_score_grows(bytes, i + 1);
        assert(bytes.take(i + 1).drop_last() =~= bytes.take(i));
        assert(is_scorable(bytes.take(i)));
        lemma_letter_score_nonnegative(bytes.take(i));
    } else {
        assert(bytes.take(i) =~= bytes);
        lemma_letter_score_nonnegative(bytes);
    }
}

/// A score is never negative.
pub proof fn lemma_letter_score_nonnegative(bytes: Seq<u8>)
    requires
        is_scorable(bytes),
    ensures
        0 <= letter_score(bytes),
    decreases bytes.len(),
{
    if bytes.len() > 0 {
        lemma_letter_score_nonnegative(bytes.drop_last());
    }
}

/// The weighted score never falls with more names.
pub proof fn lemma_weighted_score_grows(order: Seq<Seq<char>>, i: int, j: int)
    requires
        0 <= i <= j <= order.len(),
        forall|k: int| 0 <= k < order.len() ==> is_scorable(encode_utf8(#[trigger] order[k])),
    ensures
        0 <= weighted_score(order, i) <= weighted_score(order, j),
        j > 0 ==> j * letter_score(encode_utf8(order[j - 1])) <= weighted_score(order, j),
    decreases j,
{
    if j > 0 {
        if i < j {
            lemma_weighted_score_grows(order, i, j - 1);
        } else {
            lemma_weighted_score_grows(order, i - 1, j - 1);
        }
        lemma_letter_score_nonnegative(encode_utf8(order[j - 1]));
        assert(j * letter_score(encode_utf8(order[j - 1])) >= 0) by (nonlinear_arith)
            requires
                j > 0,
                letter_score(encode_utf8(order[j - 1])) >= 0,
        ;
    }
}

/// `str::trim_matches` with a double quote as the pattern: the slice
/// without the quotes at its start and at its end.
#[verifier::external_body]
fn trim_quotes(s: &str) -> (bare: &str)
    ensures
        bare@ == without_quotes(s@),
{
    s.trim_matches('"')
}

/// `slice::sort` on string slices: the same slices in ascending order,
/// which for strings is the order of their bytes.
#[verifier::external_body]
fn sort_names(names: &mut Vec<&str>)
    ensures
        texts(final(names)@).to_multiset() == texts(old(names)@).to_multiset(),
        forall|i: int, j: int|
            0 <= i < j < final(names).len() ==> bytes_le(
                encode_utf8(#[trigger] final(names)[i]@),
                encode_utf8(#[trigger] final(names)[j]@),
            ),
{
    names.sort()
}

/// The score of a name: its letters counted by their place in the alphabet.
pub fn score(name: &str) -> (total: usize)
    requires
        is_scorable(encode_utf8(name@)),
        letter_score(encode_utf8(name@)) <= usize::MAX,
    ensures
        total == letter_score(encode_utf8(name@)),
{
    let bytes = name.as_bytes();
    let mut total: usize = 0;
    let mut i: usize = 0;
    assert(bytes@.take(0) =~= Seq::<u8>::empty());
    while i < bytes.len()
        invariant
            i <= bytes.len(),
            bytes@ == encode_utf8(name@),
            is_scorable(bytes@),
            letter_score(bytes@) <= usize::MAX,
            total == letter_score(bytes@.take(i as int)),
        decreases bytes.len() - i,
    {
        proof {
            lemma_letter_score_grows(bytes@, i + 1);
            assert(bytes@.take(i + 1).drop_last() =~= bytes@.take(i as int));
        }
        let b = bytes[i];
        total = total + (b - 64) as usize;
        i = i + 1;
    }
    assert(bytes@.take(bytes.len() as int) =~= bytes@);
    total
}

/// The total of the scores of all names, each times the place of its name
/// in the sorted list. The names come as they stand in the list file, in
/// double quotes, which are removed first.
///
/// Without their quotes the names must hold no byte below `@`, and the
/// total has to fit in `usize`.
pub fn solve(the_names: &Vec<String>) -> (total: usize)
    requires
        forall|k: int|
            0 <= k < the_names.len() ==> is_scorable(
                encode_utf8(without_quotes(#[trigger] the_names[k]@)),
            ),
        forall|order: Seq<Seq<char>>| #[trigger]
            is_sorted_arrangement(order, bare_names(the_names@)) ==> weighted_score(
                order,
                order.len() as int,
            ) <= usize::MAX,
    ensures
        exists|order: Seq<Seq<char>>| #[trigger]
            is_sorted_arrangement(order, bare_names(the_names@)) && total == weighted_score(
                order,
                order.len() as int,
            ),
{
    let mut names: Vec<&str> = Vec::new();
    let mut k: usize = 0;
    while k < the_names.len()
        invariant
            k <= the_names.len(),
            texts(names@) == bare_names(the_names@).take(k as int),
        decreases the_names.len() - k,
    {
        let ghost shorter = texts(names@);
        let bare = trim_quotes(the_names[k].as_str());
        names.push(bare);
        proof {
            assert(bare@ == bare_names(the_names@)[k as int]);
            assert(texts(names@) =~= shorter.push(bare@));
            assert(bare_names(the_names@).take(k + 1) =~= bare_names(the_names@).take(
                k as int,
            ).push(bare@));
        }
        k = k + 1;
    }
    assert(bare_names(the_names@).take(the_names.len() as int) =~= bare_names(the_names@));
    sort_names(&mut names);
    let ghost order = texts(names@);
    proof {
        assert(is_sorted_arrangement(order, bare_names(the_names@)));
        // every name of the sorted list is one of the given ones
        assert forall|m: int| 0 <= m < order.len() implies is_scorable(
            encode_utf8(#[trigger] order[m]),
        ) by {
            let bare = bare_names(the_names@);
            assert(order.to_multiset().count(order[m]) > 0) by {
                vstd::seq_lib::to_multiset_contains(order, order[m]);
            }
            assert(bare.contains(order[m])) by {
                vstd::seq_lib::to_multiset_contains(bare, order[m]);
            }
            let at = choose|at: int| 0 <= at < bare.len() && bare[at] == order[m];
            assert(is_scorable(encode_utf8(without_quotes(the_names[at]@))));
        }
    }
    let mut total: usize = 0;
    let mut idx: usize = 0;
    while idx < names.len()
        invariant
            idx <= names.len(),
            order == texts(names@),
            forall|m: int| 0 <= m < order.len() ==> is_scorable(encode_utf8(#[trigger] order[m])),
            weighted_score(order, order.len() as int) <= usize::MAX,
            total == weighted_score(order, idx as int),
        decreases names.len() - idx,
    {
        proof {
            lemma_weighted_score_grows(order, idx + 1, order.len() as int);
            lemma_weighted_score_grows(order, idx + 1, idx + 1);
            assert(order[idx as int] == names[idx as int]@);
            let this = letter_score(encode_utf8(order[idx as int]));
            lemma_letter_score_nonnegative(encode_utf8(order[idx as int]));
            assert(this <= (idx + 1) * this) by (nonlinear_arith)
                requires
                    this >= 0,
                    idx >= 0,
            ;
        }
        total = total + (idx + 1) * score(names[idx]);
        idx = idx + 1;
    }
    total
}

} // verus!
