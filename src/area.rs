use vstd::prelude::*;
use vstd::arithmetic::div_mod::lemma_fundamental_div_mod_converse;
use crate::escape::{callable, deterministic, escape_result, lemma_escape_deterministic, lemma_escape_within_cap};

verus! {

/// `r` is the grid of escape counts of a `width` by `height` viewport, in
/// row-major order: entry `i` belongs to pixel `(i % width, i / width)`.
pub open spec fn area_result<S, Z, K, W, T>(
    start: Z,
    known: K,
    bounded: W,
    step: T,
    width: u32,
    height: u32,
    i_max: u32,
    r: Seq<u32>,
) -> bool where
    Z: Fn(u32, u32) -> S,
    K: Fn(&S) -> bool,
    W: Fn(&S) -> bool,
    T: Fn(&S) -> S,
 {
    &&& r.len() == width * height
    &&& forall|i: int|
        0 <= i < r.len() ==> escape_result(
            start,
            known,
            bounded,
            step,
            (i % width as int) as u32,
            (i / width as int) as u32,
            i_max,
            #[trigger] r[i],
        )
}

/// Escape counts of every pixel of a `width` by `height` grid, rows from top
/// to bottom and each row from left to right.
pub fn calc_area<S, Z, K, W, T>(
    width: u32,
    height: u32,
    start: &Z,
    known: &K,
    bounded: &W,
    step: &T,
    i_max: u32,
) -> (r: Vec<u32>) where
    Z: Fn(u32, u32) -> S,
    K: Fn(&S) -> bool,
    W: Fn(&S) -> bool,
    T: Fn(&S) -> S,

    requires
        callable(*start, *known, *bounded, *step),
        width * height <= usize::MAX,
    ensures
        area_result(*start, *known, *bounded, *step, width, height, i_max, r@),
        forall|i: int| 0 <= i < r.len() ==> r[i] <= i_max,
{
    let mut r: Vec<u32> = Vec::new();
    let mut py: u32 = 0;
    while py < height
        invariant
            callable(*start, *known, *bounded, *step),
            width * height <= usize::MAX,
            py <= height,
            r.len() == py * width,
            forall|i: int| 0 <= i < r.len() ==> r[i] <= i_max,
            forall|i: int|
                0 <= i < r.len() ==> escape_result(
                    *start,
                    *known,
                    *bounded,
                    *step,
                    (i % width as int) as u32,
                    (i / width as int) as u32,
                    i_max,
                    #[trigger] r[i],
                ),
        decreases height - py,
    {
        let mut px: u32 = 0;
        while px < width
            invariant
                callable(*start, *known, *bounded, *step),
                width * height <= usize::MAX,
                py < height,
                px <= width,
                r.len() == py * width + px,
                forall|i: int| 0 <= i < r.len() ==> r[i] <= i_max,
                forall|i: int|
                    0 <= i < r.len() ==> escape_result(
                        *start,
                        *known,
                        *bounded,
                        *step,
                        (i % width as int) as u32,
                        (i / width as int) as u32,
                        i_max,
                        #[trigger] r[i],
                    ),
            decreases width - px,
        {
            let e = crate::escape::calc(px, py, start, known, bounded, step, i_max);
            proof {
                lemma_fundamental_div_mod_converse(
                    py * width + px,
                    width as int,
                    py as int,
                    px as int,
                );
                assert((py + 1) * width <= height * width) by (nonlinear_arith)
                    requires
                        py < height,
                ;
            }
            r.push(e);
            px = px + 1;
        }
        assert(r.len() == (py + 1) * width) by (nonlinear_arith)
            requires
                r.len() == py * width + width,
        ;
        py = py + 1;
    }
    assert(r.len() == width * height) by (nonlinear_arith)
        requires
            r.len() == py * width,
            py == height,
    ;
    r
}

/// Every cell of the grid lies between zero and the cap.
pub proof fn lemma_area_within_cap<S, Z, K, W, T>(
    start: Z,
    known: K,
    bounded: W,
    step: T,
    width: u32,
    height: u32,
    i_max: u32,
    r: Seq<u32>,
) where
    Z: Fn(u32, u32) -> S,
    K: Fn(&S) -> bool,
    W: Fn(&S) -> bool,
    T: Fn(&S) -> S,

    requires
        area_result(start, known, bounded, step, width, height, i_max, r),
    ensures
        forall|i: int| 0 <= i < r.len() ==> 0 <= #[trigger] r[i] <= i_max,
{
    assert forall|i: int| 0 <= i < r.len() implies 0 <= #[trigger] r[i] <= i_max by {
        lemma_escape_within_cap(
            start,
            known,
            bounded,
            step,
            (i % width as int) as u32,
            (i / width as int) as u32,
            i_max,
            r[i],
        );
    }
}

/// With a cap of zero every cell of the grid is zero.
pub proof fn lemma_area_zero_cap<S, Z, K, W, T>(
    start: Z,
    known: K,
    bounded: W,
    step: T,
    width: u32,
    height: u32,
    r: Seq<u32>,
) where
    Z: Fn(u32, u32) -> S,
    K: Fn(&S) -> bool,
    W: Fn(&S) -> bool,
    T: Fn(&S) -> S,

    requires
        area_result(start, known, bounded, step, width, height, 0, r),
    ensures
        forall|i: int| 0 <= i < r.len() ==> #[trigger] r[i] == 0,
{
    lemma_area_within_cap(start, known, bounded, step, width, height, 0, r);
}

/// Evaluating the same grid twice gives the same grid, when the supplied
/// arithmetic is deterministic.
pub proof fn lemma_area_deterministic<S, Z, K, W, T>(
    start: Z,
    known: K,
    bounded: W,
    step: T,
    width: u32,
    height: u32,
    i_max: u32,
    r1: Seq<u32>,
    r2: Seq<u32>,
) where
    Z: Fn(u32, u32) -> S,
    K: Fn(&S) -> bool,
    W: Fn(&S) -> bool,
    T: Fn(&S) -> S,

    requires
        deterministic(start, known, bounded, step),
        area_result(start, known, bounded, step, width, height, i_max, r1),
        area_result(start, known, bounded, step, width, height, i_max, r2),
    ensures
        r1 == r2,
{
    assert forall|i: int| 0 <= i < r1.len() implies r1[i] == r2[i] by {
        lemma_escape_deterministic(
            start,
            known,
            bounded,
            step,
            (i % width as int) as u32,
            (i / width as int) as u32,
            i_max,
            r1[i],
            r2[i],
        );
    }
    assert(r1 =~= r2);
}

} // verus!
