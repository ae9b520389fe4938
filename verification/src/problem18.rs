//! The largest total along a route from the top of a number triangle down
//! to its base.

use vstd::prelude::*;

verus! {

/// From `row` on, every row is long enough for any route that passes
/// through position `index` of `row`.
pub open spec fn wide_enough(data: Seq<Vec<u64>>, row: int, index: int) -> bool {
    forall|r: int| row <= r < data.len() ==> (#[trigger] data[r]).len() > index + (r - row)
}

/// The largest total of a route that starts at position `index` of `row`
/// and steps, row by row, to the same or the next position.
pub open spec fn best_route(data: Seq<Vec<u64>>, row: int, index: int) -> int
    decreases data.len() - row,
{
    if row < 0 || row >= data.len() {
        0
    } else {
        let below = best_route(data, row + 1, index);
        let beside = best_route(data, row + 1, index + 1);
        data[row][index] + if below >= beside {
            below
        } else {
            beside
        }
    }
}

/// A route total is never negative.
pub proof fn lemma_best_route_nonnegative(data: Seq<Vec<u64>>, row: int, index: int)
    ensures
        best_route(data, row, index) >= 0,
    decreases data.len() - row,
{
    if 0 <= row < data.len() {
        lemma_best_route_nonnegative(data, row + 1, index);
        lemma_best_route_nonnegative(data, row + 1, index + 1);
    }
}

/// The rows of the triangle of the puzzle.
pub open spec fn triangle() -> Seq<Seq<u64>> {
    seq![
        seq![75],
        seq![95, 64],
        seq![17, 47, 82],
        seq![18, 35, 87, 10],
        seq![20, 4, 82, 47, 65],
        seq![19, 1, 23, 75, 3, 34],
        seq![88, 2, 77, 73, 7, 63, 67],
        seq![99, 65, 4, 28, 6, 16, 70, 92],
        seq![41, 41, 26, 56, 83, 40, 80, 70, 33],
        seq![41, 48, 72, 33, 47, 32, 37, 16, 94, 29],
        seq![53, 71, 44, 65, 25, 43, 91, 52, 97, 51, 14],
        seq![70, 11, 33, 28, 77, 73, 17, 78, 39, 68, 17, 57],
        seq![91, 71, 52, 38, 17, 14, 91, 43, 58, 50, 27, 29, 48],
        seq![63, 66, 4, 68, 89, 53, 67, 30, 73, 16, 69, 87, 40, 31],
        seq![4, 62, 98, 27, 23, 9, 70, 98, 73, 93, 38, 53, 60, 4, 23],
    ]
}

/// The triangle of the puzzle: fifteen rows, the first of one number, each
/// further one longer by one, all numbers below 100.
pub fn input() -> (data: Vec<Vec<u64>>)
    ensures
        data.len() == 15,
        forall|r: int| 0 <= r < 15 ==> (#[trigger] data[r])@ == triangle()[r],
        forall|r: int| 0 <= r < 15 ==> (#[trigger] data[r]).len() == r + 1,
        forall|r: int, i: int| 0 <= r < 15 && 0 <= i <= r ==> #[trigger] data[r][i] < 100,
{
    vec![
        vec![75],
        vec![95, 64],
        vec![17, 47, 82],
        vec![18, 35, 87, 10],
        vec![20, 4, 82, 47, 65],
        vec![19, 1, 23, 75, 3, 34],
        vec![88, 2, 77, 73, 7, 63, 67],
        vec![99, 65, 4, 28, 6, 16, 70, 92],
        vec![41, 41, 26, 56, 83, 40, 80, 70, 33],
        vec![41, 48, 72, 33, 47, 32, 37, 16, 94, 29],
        vec![53, 71, 44, 65, 25, 43, 91, 52, 97, 51, 14],
        vec![70, 11, 33, 28, 77, 73, 17, 78, 39, 68, 17, 57],
        vec![91, 71, 52, 38, 17, 14, 91, 43, 58, 50, 27, 29, 48],
        vec![63, 66, 4, 68, 89, 53, 67, 30, 73, 16, 69, 87, 40, 31],
        vec![4, 62, 98, 27, 23, 9, 70, 98, 73, 93, 38, 53, 60, 4, 23],
    ]
}

/// The largest total of a route from position `index` of `row` down to the
/// last row; 0 below the last row.
pub fn route_sum(data: &Vec<Vec<u64>>, row: usize, index: usize) -> (total: u64)
    requires
        wide_enough(data@, row as int, index as int),
        best_route(data@, row as int, index as int) <= u64::MAX,
    ensures
        total == best_route(data@, row as int, index as int),
    decreases data.len() - row,
{
    if row >= data.len() {
        return 0;
    }
    assert(data@[row as int].len() > index);
    let value = data[row][index];
    proof {
        lemma_best_route_nonnegative(data@, row + 1, index as int);
        lemma_best_route_nonnegative(data@, row + 1, index + 1);
        assert forall|r: int| row + 1 <= r < data.len() implies (#[trigger] data@[r]).len() > index
            + 1 + (r - (row + 1)) by {}
    }
    let below = route_sum(data, row + 1, index);
    let beside = route_sum(data, row + 1, index + 1);
    value + if below >= beside {
        below
    } else {
        beside
    }
}

/// The largest total of a route from the top of the triangle to its base.
pub fn solve(data: &Vec<Vec<u64>>) -> (total: u64)
    requires
        wide_enough(data@, 0, 0),
        best_route(data@, 0, 0) <= u64::MAX,
    ensures
        total == best_route(data@, 0, 0),
{
    route_sum(data, 0, 0)
}

} // verus!
