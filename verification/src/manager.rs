use vstd::prelude::*;

verus! {

// ---------------------------------------------------------------------------
// Framing of a concatenated bitmap stream: locate the `BM` magic, read the
// 4-byte little-endian file size at offset 2, emit exactly that many bytes,
// and drop junk between frames.
// ---------------------------------------------------------------------------

/// The file size announced in a bitmap header (little-endian u32 at offset 2).
pub open spec fn bmp_size(s: Seq<u8>) -> int {
    s[2] + s[3] * 0x100 + s[4] * 0x10000 + s[5] * 0x1000000
}

/// The complete frames held in a pending byte string, and the bytes to keep:
/// junk before a `BM` magic is dropped (all but a possible trailing `B`), a
/// header announcing less than its own 54 bytes is skipped as junk, and an
/// incomplete frame is kept until more bytes arrive.
pub open spec fn extract_frames(s: Seq<u8>) -> (Seq<Seq<u8>>, Seq<u8>)
    decreases s.len(),
{
    if s.len() < 2 {
        if s.len() == 1 && s[0] == 66 {
            (Seq::<Seq<u8>>::empty(), s)
        } else {
            (Seq::<Seq<u8>>::empty(), Seq::<u8>::empty())
        }
    } else if s[0] == 66 && s[1] == 77 {
        if s.len() < 54 {
            (Seq::<Seq<u8>>::empty(), s)
        } else {
            let size = bmp_size(s);
            if size < 54 {
                extract_frames(s.skip(2))
            } else if size <= s.len() {
                let rec = extract_frames(s.skip(size));
                (seq![s.take(size)] + rec.0, rec.1)
            } else {
                (Seq::<Seq<u8>>::empty(), s)
            }
        }
    } else {
        extract_frames(s.drop_first())
    }
}

/// Reassembles bitmap frames from a stream of byte chunks.
pub struct BitmapReader {
    buffer: Vec<u8>,
}

impl BitmapReader {
    /// The bytes received but not yet emitted as part of a frame.
    pub closed spec fn pending(self) -> Seq<u8> {
        self.buffer@
    }

    /// A fresh reader with nothing pending.
    pub fn new() -> (r: BitmapReader)
        ensures
            r.pending() == Seq::<u8>::empty(),
    {
        BitmapReader { buffer: Vec::new() }
    }

    /// Take in one chunk of the stream and give back every frame that is now
    /// complete, keeping the tail for later chunks.
    pub fn feed(&mut self, data: &Vec<u8>) -> (frames: Vec<Vec<u8>>)
        ensures
            frames.deep_view() == extract_frames(old(self).pending() + data@).0,
            final(self).pending() == extract_frames(old(self).pending() + data@).1,
    {
        let ghost orig = self.buffer@ + data@;
        self.buffer.extend_from_slice(data.as_slice());
        proof {
            assert(self.buffer@ =~= orig);
        }
        let mut frames: Vec<Vec<u8>> = Vec::new();
        proof {
            assert(frames.deep_view() =~= Seq::<Seq<u8>>::empty());
            assert(frames.deep_view() + extract_frames(self.buffer@).0 =~= extract_frames(
                orig,
            ).0);
        }
        let mut finished = false;
        while !finished
            invariant
                extract_frames(orig).0 == frames.deep_view() + extract_frames(self.buffer@).0,
                extract_frames(orig).1 == extract_frames(self.buffer@).1,
                finished ==> extract_frames(self.buffer@).0 == Seq::<Seq<u8>>::empty()
                    && extract_frames(self.buffer@).1 == self.buffer@,
            decreases self.buffer@.len(), (if finished { 0int } else { 1int }),
        {
            let ghost cur = self.buffer@;
            let len = self.buffer.len();
            if len < 2 {
                if !(len == 1 && self.buffer[0] == 66) {
                    self.buffer.clear();
                    proof {
                        assert(self.buffer@ =~= Seq::<u8>::empty());
                    }
                }
                finished = true;
                proof {
                    assert(frames.deep_view() + extract_frames(self.buffer@).0 =~= frames
                        .deep_view() + extract_frames(cur).0);
                }
            } else {
                let b0 = self.buffer[0];
                let b1 = self.buffer[1];
                if b0 == 66 && b1 == 77 {
                    if len < 54 {
                        finished = true;
                    } else {
                        let size_u32: u32 = (self.buffer[2] as u32) + (self.buffer[3] as u32)
                            * 0x100 + (self.buffer[4] as u32) * 0x10000 + (self.buffer[5] as u32)
                            * 0x1000000;
                        proof {
                            assert(size_u32 == bmp_size(cur));
                        }
                        if size_u32 < 54 {
                            drop_front(&mut self.buffer, 2);
                        } else if (size_u32 as u64) <= (len as u64) {
                            let size = size_u32 as usize;
                            let frame = take_front(&self.buffer, size);
                            drop_front(&mut self.buffer, size);
                            let ghost frames_before = frames.deep_view();
                            frames.push(frame);
                            proof {
                                assert(frames.deep_view() =~~= frames_before.push(
                                    cur.take(size as int),
                                ));
                                assert(frames.deep_view() + extract_frames(self.buffer@).0
                                    =~= frames_before + (seq![cur.take(size as int)]
                                    + extract_frames(cur.skip(size as int)).0));
                            }
                        } else {
                            finished = true;
                        }
                    }
                } else {
                    drop_front(&mut self.buffer, 1);
                    proof {
                        assert(cur.skip(1) =~= cur.drop_first());
                    }
                }
            }
        }
        proof {
            assert(frames.deep_view() =~= frames.deep_view() + extract_frames(self.buffer@).0);
        }
        frames
    }
}

/// Remove the first `k` bytes of a vector.
fn drop_front(v: &mut Vec<u8>, k: usize)
    requires
        k <= old(v)@.len(),
    ensures
        final(v)@ == old(v)@.skip(k as int),
{
    let len = v.len();
    let mut out: Vec<u8> = Vec::new();
    let mut i: usize = k;
    while i < len
        invariant
            k <= i <= len,
            len == v@.len(),
            v@ == old(v)@,
            out@ == old(v)@.subrange(k as int, i as int),
        decreases len - i,
    {
        out.push(v[i]);
        proof {
            assert(out@ =~= old(v)@.subrange(k as int, i + 1));
        }
        i += 1;
    }
    proof {
        assert(out@ =~= old(v)@.skip(k as int));
    }
    *v = out;
}

/// Copy the first `k` bytes of a vector.
fn take_front(v: &Vec<u8>, k: usize) -> (out: Vec<u8>)
    requires
        k <= v@.len(),
    ensures
        out@ == v@.take(k as int),
{
    let mut out: Vec<u8> = Vec::new();
    let mut i: usize = 0;
    while i < k
        invariant
            i <= k <= v@.len(),
            out@ == v@.subrange(0, i as int),
        decreases k - i,
    {
        out.push(v[i]);
        proof {
            assert(out@ =~= v@.subrange(0, i + 1));
        }
        i += 1;
    }
    out
}

// ---------------------------------------------------------------------------
// The bitmap-framing law.
// ---------------------------------------------------------------------------

/// A well-formed frame: starts with the `BM` magic, announces its own length,
/// and is at least one whole header long.
pub open spec fn wf_bmp(f: Seq<u8>) -> bool {
    &&& f.len() >= 54
    &&& f[0] == 66
    &&& f[1] == 77
    &&& bmp_size(f) == f.len()
}

proof fn lemma_extract_junk(junk: Seq<u8>, rest: Seq<u8>)
    requires
        forall|i: int| 0 <= i < junk.len() ==> junk[i] != 66,
        rest.len() >= 2,
        rest[0] == 66,
        rest[1] == 77,
    ensures
        extract_frames(junk + rest) == extract_frames(rest),
    decreases junk.len(),
{
    let s = junk + rest;
    if junk.len() == 0 {
        assert(s =~= rest);
    } else {
        assert(s[0] == junk[0]);
        assert(s[0] != 66);
        assert(s.len() >= 2);
        assert(s.drop_first() =~= junk.drop_first() + rest);
        lemma_extract_junk(junk.drop_first(), rest);
    }
}

proof fn lemma_extract_wf_frame(f: Seq<u8>, rest: Seq<u8>)
    requires
        wf_bmp(f),
    ensures
        extract_frames(f + rest) == (seq![f] + extract_frames(rest).0, extract_frames(rest).1),
{
    let s = f + rest;
    assert(s[0] == 66 && s[1] == 77);
    assert(s[2] == f[2] && s[3] == f[3] && s[4] == f[4] && s[5] == f[5]);
    assert(bmp_size(s) == f.len());
    assert(s.take(f.len() as int) =~= f);
    assert(s.skip(f.len() as int) =~= rest);
}

/// Bitmap framing: a stream of junk (holding no `B`) followed by two
/// well-formed frames yields exactly those two frames, each of its announced
/// size, with nothing pending.
pub proof fn lemma_bitmap_framing(junk: Seq<u8>, f1: Seq<u8>, f2: Seq<u8>)
    requires
        forall|i: int| 0 <= i < junk.len() ==> junk[i] != 66,
        wf_bmp(f1),
        wf_bmp(f2),
    ensures
        extract_frames(junk + f1 + f2).0 == seq![f1, f2],
        extract_frames(junk + f1 + f2).1 == Seq::<u8>::empty(),
        extract_frames(junk + f1 + f2).0[0].len() == bmp_size(f1),
        extract_frames(junk + f1 + f2).0[1].len() == bmp_size(f2),
{
    assert(junk + f1 + f2 =~= junk + (f1 + f2));
    lemma_extract_junk(junk, f1 + f2);
    lemma_extract_wf_frame(f1, f2);
    assert(f2 + Seq::<u8>::empty() =~= f2);
    lemma_extract_wf_frame(f2, Seq::<u8>::empty());
    assert(extract_frames(Seq::<u8>::empty()).0 =~= Seq::<Seq<u8>>::empty());
    assert(extract_frames(f2).0 =~= seq![f2]);
    assert(extract_frames(f1 + f2).0 =~= seq![f1, f2]);
}

} // verus!
