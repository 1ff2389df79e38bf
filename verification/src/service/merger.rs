use vstd::prelude::*;

verus! {

/// The frame-ordering stage: commands arrive tagged with a frame index, in
/// arbitrary order, and only indices strictly above the watermark pass on.
pub struct Merger {
    /// The highest frame index forwarded so far; zero before any.
    pub last_idx: usize,
}

/// The indices that a merger with watermark `w` forwards, given the arrival
/// order of the frame indices.
pub open spec fn forwarded(arrivals: Seq<usize>, w: int) -> Seq<usize>
    decreases arrivals.len(),
{
    if arrivals.len() == 0 {
        Seq::empty()
    } else {
        let first = arrivals.first();
        if first > w {
            seq![first] + forwarded(arrivals.drop_first(), first as int)
        } else {
            forwarded(arrivals.drop_first(), w)
        }
    }
}

impl Merger {
    /// Decide one arrival: forward it iff its index strictly exceeds the
    /// watermark, advancing the watermark when it does.
    pub fn offer(&mut self, idx: usize) -> (forward: bool)
        ensures
            forward == (idx > old(self).last_idx),
            final(self).last_idx == if idx > old(self).last_idx {
                idx
            } else {
                old(self).last_idx
            },
    {
        if idx > self.last_idx {
            self.last_idx = idx;
            true
        } else {
            false
        }
    }
}

/// Make the merger stage, with its watermark at zero.
pub fn get_merger() -> (m: Merger)
    ensures
        m.last_idx == 0,
{
    Merger { last_idx: 0 }
}

/// Merger monotonicity: whatever order frames arrive in, the forwarded
/// indices are strictly increasing and all exceed the starting watermark, so
/// no painter ever regresses to an older frame.
pub proof fn lemma_merger_monotonic(arrivals: Seq<usize>, w: int)
    ensures
        forall|i: int, j: int|
            0 <= i < j < forwarded(arrivals, w).len() ==> #[trigger] forwarded(arrivals, w)[i]
                < #[trigger] forwarded(arrivals, w)[j],
        forall|i: int|
            0 <= i < forwarded(arrivals, w).len() ==> #[trigger] forwarded(arrivals, w)[i] > w,
    decreases arrivals.len(),
{
    if arrivals.len() > 0 {
        let first = arrivals.first();
        let rest = arrivals.drop_first();
        if first > w {
            lemma_merger_monotonic(rest, first as int);
            let f = forwarded(arrivals, w);
            assert forall|i: int| 0 <= i < f.len() implies #[trigger] f[i] > w by {
                if i > 0 {
                    assert(f[i] == forwarded(rest, first as int)[i - 1]);
                }
            }
            assert forall|i: int, j: int| 0 <= i < j < f.len() implies #[trigger] f[i]
                < #[trigger] f[j] by {
                assert(f[j] == forwarded(rest, first as int)[j - 1]);
                if i > 0 {
                    assert(f[i] == forwarded(rest, first as int)[i - 1]);
                }
            }
        } else {
            lemma_merger_monotonic(rest, w);
            assert(forwarded(arrivals, w) == forwarded(rest, w));
        }
    }
}

} // verus!
