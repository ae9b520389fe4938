//! The protocol that all generators share: a lazy sequence is pulled one
//! value at a time and answers each pull with a value or with its end.

use vstd::prelude::*;

verus! {

/// A producer of values on demand. An instance is a single pass over its
/// sequence: it only moves forward and keeps no value it has handed out.
pub trait LazySequence: Sized {
    /// What the sequence produces.
    type Item;

    /// The sequence is in a state from which it can be pulled.
    spec fn ready(&self) -> bool;

    /// A pull in state `self` hands out `item` and leaves state `after`;
    /// `None` stands for the end of the sequence.
    spec fn pulls(&self, after: &Self, item: Option<Self::Item>) -> bool;

    /// Produces the next value, or `None` when the sequence is exhausted.
    fn advance(&mut self) -> (item: Option<Self::Item>)
        requires
            old(self).ready(),
        ensures
            final(self).ready(),
            old(self).pulls(final(self), item),
    ;
}

/// Pulling the values `items` one after the other leads from state `start`
/// to state `end`.
pub open spec fn pulled<S: LazySequence>(start: S, items: Seq<S::Item>, end: S) -> bool
    decreases items.len(),
{
    if items.len() == 0 {
        start == end
    } else {
        exists|mid: S|
            pulled(start, items.drop_last(), mid) && #[trigger] mid.pulls(
                &end,
                Some(items.last()),
            )
    }
}

/// One more pull extends what has been pulled.
pub proof fn lemma_pulled_one_more<S: LazySequence>(
    start: S,
    items: Seq<S::Item>,
    mid: S,
    item: S::Item,
    end: S,
)
    requires
        pulled(start, items, mid),
        mid.pulls(&end, Some(item)),
    ensures
        pulled(start, items.push(item), end),
{
    let longer = items.push(item);
    assert(longer.drop_last() =~= items);
    assert(longer.last() == item);
    assert(pulled(start, longer.drop_last(), mid) && mid.pulls(&end, Some(longer.last())));
}

/// The first `n` values of the sequence from where it stands; fewer only
/// when it ends before, in which case the pull that met the end is the last.
pub fn take_first<S: LazySequence>(seq: &mut S, n: usize) -> (items: Vec<S::Item>)
    requires
        old(seq).ready(),
    ensures
        final(seq).ready(),
        items.len() <= n,
        items.len() == n ==> pulled(*old(seq), items@, *final(seq)),
        items.len() < n ==> exists|last: S| #[trigger]
            pulled(*old(seq), items@, last) && last.pulls(final(seq), None),
{
    let mut items: Vec<S::Item> = Vec::new();
    let mut ended: bool = false;
    while items.len() < n && !ended
        invariant
            seq.ready(),
            items.len() <= n,
            !ended ==> pulled(*old(seq), items@, *seq),
            ended ==> items.len() < n && exists|last: S| #[trigger]
                pulled(*old(seq), items@, last) && last.pulls(seq, None),
        decreases n - items.len(), if ended { 0int } else { 1int },
    {
        let ghost before = *seq;
        let ghost shorter = items@;
        match seq.advance() {
            Some(item) => {
                items.push(item);
                proof {
                    lemma_pulled_one_more(*old(seq), shorter, before, item, *seq);
                }
            },
            None => {
                ended = true;
                assert(pulled(*old(seq), items@, before) && before.pulls(&*seq, None));
            },
        }
    }
    items
}

} // verus!
