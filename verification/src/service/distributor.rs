use vstd::prelude::*;

verus! {

/// Which encoder worker receives the image with running number `count`:
/// images go round-robin over the workers.
pub fn route_image(count: usize, workers: usize) -> (r: usize)
    requires
        workers >= 1,
    ensures
        r == count % workers,
        r < workers,
{
    count % workers
}

} // verus!
