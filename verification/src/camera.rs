use vstd::prelude::*;
use crate::image_handler::Frame;

verus! {

/// The pixel area of a resolution.
pub open spec fn area(p: (u32, u32)) -> int {
    (p.0 as int) * (p.1 as int)
}

/// Pick a resolution no smaller in pixel area than any offered one; zero by
/// zero stands when the list is empty or all entries have area zero.
pub fn best_resolution(discretes: &Vec<(u32, u32)>) -> (r: (u32, u32))
    ensures
        forall|i: int| 0 <= i < discretes@.len() ==> area(#[trigger] discretes@[i]) <= area(r),
        r == (0u32, 0u32) || exists|i: int| 0 <= i < discretes@.len() && discretes@[i] == r,
{
    let mut max_res: (u32, u32) = (0, 0);
    let mut i: usize = 0;
    while i < discretes.len()
        invariant
            i <= discretes@.len(),
            forall|j: int| 0 <= j < i ==> area(#[trigger] discretes@[j]) <= area(max_res),
            max_res == (0u32, 0u32) || exists|j: int| 0 <= j < i && discretes@[j] == max_res,
        decreases discretes@.len() - i,
    {
        let (w, h) = discretes[i];
        proof {
            assert((w as int) * (h as int) <= 0xffff_ffff * 0xffff_ffff && (max_res.0 as int) * (
            max_res.1 as int) <= 0xffff_ffff * 0xffff_ffff) by (nonlinear_arith)
                requires
                    0 <= w as int <= 0xffff_ffff,
                    0 <= h as int <= 0xffff_ffff,
                    0 <= max_res.0 as int <= 0xffff_ffff,
                    0 <= max_res.1 as int <= 0xffff_ffff,
            ;
        }
        if (w as u64) * (h as u64) > (max_res.0 as u64) * (max_res.1 as u64) {
            max_res = (w, h);
        }
        i += 1;
    }
    max_res
}

/// Mask a green screen out of a camera frame: the RGB bytes become RGBA,
/// fully transparent exactly where a pixel equals the key colour.
pub fn filter_green_screen(width: u32, height: u32, rgb: &Vec<u8>, key: (u8, u8, u8)) -> (out:
    Frame)
    requires
        rgb@.len() == 3 * ((width as int) * (height as int)),
    ensures
        out.wf(),
        out.width == width,
        out.height == height,
        forall|i: int|
            0 <= i < (width as int) * (height as int) ==> {
                &&& #[trigger] out.data@[4 * i] == rgb@[3 * i]
                &&& out.data@[4 * i + 1] == rgb@[3 * i + 1]
                &&& out.data@[4 * i + 2] == rgb@[3 * i + 2]
                &&& out.data@[4 * i + 3] == (if rgb@[3 * i] == key.0 && rgb@[3 * i + 1] == key.1
                    && rgb@[3 * i + 2] == key.2 {
                    0u8
                } else {
                    255u8
                })
            },
{
    let len = rgb.len();
    proof {
        assert((width as int) * (height as int) >= 0 && (width as int) * (height as int) <= len)
            by (nonlinear_arith)
            requires
                len == 3 * ((width as int) * (height as int)),
        ;
    }
    let total: usize = (width as usize) * (height as usize);
    let mut data: Vec<u8> = Vec::new();
    let mut i: usize = 0;
    while i < total
        invariant
            i <= total,
            total == (width as int) * (height as int),
            rgb@.len() == 3 * ((width as int) * (height as int)),
            rgb@.len() <= usize::MAX,
            data@.len() == 4 * i,
            forall|j: int|
                0 <= j < i ==> {
                    &&& #[trigger] data@[4 * j] == rgb@[3 * j]
                    &&& data@[4 * j + 1] == rgb@[3 * j + 1]
                    &&& data@[4 * j + 2] == rgb@[3 * j + 2]
                    &&& data@[4 * j + 3] == (if rgb@[3 * j] == key.0 && rgb@[3 * j + 1] == key.1
                        && rgb@[3 * j + 2] == key.2 {
                        0u8
                    } else {
                        255u8
                    })
                },
        decreases total - i,
    {
        let r = rgb[3 * i];
        let g = rgb[3 * i + 1];
        let b = rgb[3 * i + 2];
        let a: u8 = if r == key.0 && g == key.1 && b == key.2 {
            0
        } else {
            255
        };
        let ghost before = data@;
        data.push(r);
        data.push(g);
        data.push(b);
        data.push(a);
        proof {
            assert(data@ =~= before + seq![r, g, b, a]);
            assert forall|j: int| 0 <= j < i + 1 implies {
                &&& #[trigger] data@[4 * j] == rgb@[3 * j]
                &&& data@[4 * j + 1] == rgb@[3 * j + 1]
                &&& data@[4 * j + 2] == rgb@[3 * j + 2]
                &&& data@[4 * j + 3] == (if rgb@[3 * j] == key.0 && rgb@[3 * j + 1] == key.1
                    && rgb@[3 * j + 2] == key.2 {
                    0u8
                } else {
                    255u8
                })
            } by {
                if j < i {
                    assert(data@[4 * j] == before[4 * j]);
                    assert(data@[4 * j + 1] == before[4 * j + 1]);
                    assert(data@[4 * j + 2] == before[4 * j + 2]);
                    assert(data@[4 * j + 3] == before[4 * j + 3]);
                } else {
                    assert(data@[4 * j] == r);
                    assert(data@[4 * j + 1] == g);
                    assert(data@[4 * j + 2] == b);
                    assert(data@[4 * j + 3] == a);
                }
            }
        }
        i += 1;
    }
    let out = Frame { width, height, data };
    proof {
        assert(out.wf()) by {
            assert(4 * ((width as int) * (height as int)) == out.data@.len());
        }
    }
    out
}

} // verus!
