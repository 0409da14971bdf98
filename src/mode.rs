//! Choice of the camera mode to capture with.
use vstd::prelude::*;

verus! {

/// Mode `i` is the first of greatest height.
pub open spec fn is_tallest(heights: Seq<u32>, i: int) -> bool {
    &&& 0 <= i < heights.len()
    &&& forall|j: int| 0 <= j < heights.len() ==> #[trigger] heights[j] <= heights[i]
    &&& forall|j: int| 0 <= j < i ==> #[trigger] heights[j] < heights[i]
}

/// Among the compatible modes, given by their heights, the position of the
/// tallest; the first one wins a tie, so the choice is reproducible. `None`
/// when there is no mode.
pub fn tallest(heights: &Vec<u32>) -> (r: Option<usize>)
    ensures
        heights@.len() == 0 <==> r is None,
        r is Some ==> is_tallest(heights@, r->Some_0 as int),
{
    if heights.len() == 0 {
        return None;
    }
    let mut best: usize = 0;
    let mut i: usize = 1;
    while i < heights.len()
        invariant
            1 <= i <= heights@.len(),
            is_tallest(heights@.subrange(0, i as int), best as int),
        decreases heights@.len() - i,
    {
        if heights[i] > heights[best] {
            best = i;
        }
        i = i + 1;
        assert forall|j: int| 0 <= j < i implies #[trigger] heights@[j] <= heights@[best as int] by {
            if j < i - 1 {
                assert(heights@.subrange(0, i - 1)[j] == heights@[j]);
            }
        }
        assert forall|j: int| 0 <= j < best implies #[trigger] heights@[j] < heights@[best as int] by {
            if j < i - 1 {
                assert(heights@.subrange(0, i - 1)[j] == heights@[j]);
            }
        }
    }
    assert(heights@.subrange(0, i as int) =~= heights@);
    Some(best)
}

} // verus!
