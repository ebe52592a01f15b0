//! The box that the data spans, and how whales are brought back into it.

use vstd::prelude::*;
use crate::ieee::{rank, spec_is_nan, flt_lt, lt, gt, F32_MAX_BITS, F32_MIN_BITS};

verus! {

/// The running maximum of coordinate `i` over the first `n` points, starting
/// from `f32::MIN` and replaced only by a strictly greater coordinate.
pub open spec fn upper_bound(data: Seq<Vec<u32>>, i: int, n: nat) -> u32
    decreases n,
{
    if n == 0 {
        F32_MIN_BITS
    } else {
        let prev = upper_bound(data, i, (n - 1) as nat);
        if i < data[n - 1]@.len() && flt_lt(prev, data[n - 1]@[i]) {
            data[n - 1]@[i]
        } else {
            prev
        }
    }
}

/// The running minimum of coordinate `i` over the first `n` points, starting
/// from `f32::MAX` and replaced only by a strictly smaller coordinate.
pub open spec fn lower_bound(data: Seq<Vec<u32>>, i: int, n: nat) -> u32
    decreases n,
{
    if n == 0 {
        F32_MAX_BITS
    } else {
        let prev = lower_bound(data, i, (n - 1) as nat);
        if i < data[n - 1]@.len() && flt_lt(data[n - 1]@[i], prev) {
            data[n - 1]@[i]
        } else {
            prev
        }
    }
}

/// Some point among the first `n` has `x` as its coordinate `i`.
pub open spec fn attained(data: Seq<Vec<u32>>, i: int, n: nat, x: u32) -> bool {
    exists|p: int| 0 <= p < n && i < data[p]@.len() && #[trigger] data[p]@[i] == x
}

proof fn lemma_bounds_attained(data: Seq<Vec<u32>>, i: int, n: nat)
    requires
        n <= data.len(),
        0 <= i,
    ensures
        upper_bound(data, i, n) == F32_MIN_BITS || attained(data, i, n, upper_bound(data, i, n)),
        lower_bound(data, i, n) == F32_MAX_BITS || attained(data, i, n, lower_bound(data, i, n)),
    decreases n,
{
    if n > 0 {
        lemma_bounds_attained(data, i, (n - 1) as nat);
        let q = n - 1;
        let u = upper_bound(data, i, n);
        if u != F32_MIN_BITS {
            if i < data[q]@.len() && u == data[q]@[i] {
                assert(data[q]@[i] == u);
            } else {
                let p = choose|p: int| 0 <= p < n - 1 && i < data[p]@.len() && #[trigger] data[p]@[i] == u;
                assert(data[p]@[i] == u);
            }
        }
        let l = lower_bound(data, i, n);
        if l != F32_MAX_BITS {
            if i < data[q]@.len() && l == data[q]@[i] {
                assert(data[q]@[i] == l);
            } else {
                let p = choose|p: int| 0 <= p < n - 1 && i < data[p]@.len() && #[trigger] data[p]@[i] == l;
                assert(data[p]@[i] == l);
            }
        }
    }
}

/// Each bound is a coordinate of the data or its starting value: the maximum
/// is `f32::MIN` or some point's coordinate, the minimum is `f32::MAX` or some
/// point's coordinate. With the enclosure, the maximum is the largest non-NaN
/// coordinate whenever one exceeds `f32::MIN`, and the minimum the smallest.
pub proof fn lemma_bounds_are_data(data: Seq<Vec<u32>>, i: int)
    requires
        0 <= i,
    ensures
        upper_bound(data, i, data.len()) == F32_MIN_BITS || attained(data, i, data.len(), upper_bound(data, i, data.len())),
        lower_bound(data, i, data.len()) == F32_MAX_BITS || attained(data, i, data.len(), lower_bound(data, i, data.len())),
        forall|p: int|
            0 <= p < data.len() && i < data[p]@.len() && !spec_is_nan(data[p]@[i]) ==> rank(#[trigger] data[p]@[i])
                <= rank(upper_bound(data, i, data.len())) && rank(lower_bound(data, i, data.len())) <= rank(data[p]@[i]),
{
    lemma_bounds_attained(data, i, data.len());
    lemma_bounds_enclose(data, i, data.len());
}

proof fn lemma_bounds_enclose(data: Seq<Vec<u32>>, i: int, n: nat)
    requires
        n <= data.len(),
        0 <= i,
    ensures
        !spec_is_nan(upper_bound(data, i, n)),
        !spec_is_nan(lower_bound(data, i, n)),
        forall|p: int|
            0 <= p < n && i < data[p]@.len() && !spec_is_nan(data[p]@[i]) ==> rank(#[trigger] data[p]@[i])
                <= rank(upper_bound(data, i, n)) && rank(lower_bound(data, i, n)) <= rank(data[p]@[i]),
    decreases n,
{
    if n > 0 {
        lemma_bounds_enclose(data, i, (n - 1) as nat);
    }
}

/// The per-coordinate maximum and minimum of the data, as `(max, min)`.
///
/// There are as many coordinates as the first point has; a coordinate that is
/// NaN never becomes a bound, so the bounds enclose every other coordinate.
pub fn data_bounds(data: &Vec<Vec<u32>>) -> (bounds: (Vec<u32>, Vec<u32>))
    requires
        data@.len() > 0,
        forall|p: int| 0 <= p < data@.len() ==> #[trigger] data@[p]@.len() <= data@[0]@.len(),
    ensures
        bounds.0@.len() == data@[0]@.len(),
        bounds.1@.len() == data@[0]@.len(),
        forall|i: int| 0 <= i < bounds.0@.len() ==> #[trigger] bounds.0@[i] == upper_bound(data@, i, data@.len()),
        forall|i: int| 0 <= i < bounds.1@.len() ==> #[trigger] bounds.1@[i] == lower_bound(data@, i, data@.len()),
        forall|i: int| 0 <= i < bounds.0@.len() ==> !spec_is_nan(#[trigger] bounds.0@[i]),
        forall|i: int| 0 <= i < bounds.1@.len() ==> !spec_is_nan(#[trigger] bounds.1@[i]),
        forall|p: int, i: int|
            0 <= p < data@.len() && 0 <= i < data@[p]@.len() && !spec_is_nan(#[trigger] data@[p]@[i]) ==> rank(
                bounds.1@[i],
            ) <= rank(data@[p]@[i]) && rank(data@[p]@[i]) <= rank(bounds.0@[i]),
        forall|i: int|
            0 <= i < bounds.0@.len() ==> #[trigger] bounds.0@[i] == F32_MIN_BITS || attained(
                data@,
                i,
                data@.len(),
                bounds.0@[i],
            ),
        forall|i: int|
            0 <= i < bounds.1@.len() ==> #[trigger] bounds.1@[i] == F32_MAX_BITS || attained(
                data@,
                i,
                data@.len(),
                bounds.1@[i],
            ),
{
    let dim = data[0].len();
    let mut max: Vec<u32> = Vec::new();
    let mut min: Vec<u32> = Vec::new();
    let mut i: usize = 0;
    while i < dim
        invariant
            i <= dim,
            max@.len() == i,
            min@.len() == i,
            forall|j: int| 0 <= j < i ==> #[trigger] max@[j] == F32_MIN_BITS,
            forall|j: int| 0 <= j < i ==> #[trigger] min@[j] == F32_MAX_BITS,
        decreases dim - i,
    {
        max.push(F32_MIN_BITS);
        min.push(F32_MAX_BITS);
        i = i + 1;
    }
    let mut p: usize = 0;
    while p < data.len()
        invariant
            dim == data@[0]@.len(),
            forall|q: int| 0 <= q < data@.len() ==> #[trigger] data@[q]@.len() <= dim,
            p <= data@.len(),
            max@.len() == dim,
            min@.len() == dim,
            forall|j: int| 0 <= j < dim ==> #[trigger] max@[j] == upper_bound(data@, j, p as nat),
            forall|j: int| 0 <= j < dim ==> #[trigger] min@[j] == lower_bound(data@, j, p as nat),
        decreases data@.len() - p,
    {
        let v = &data[p];
        let mut i: usize = 0;
        while i < v.len()
            invariant
                dim == data@[0]@.len(),
                v@ == data@[p as int]@,
                v@.len() <= dim,
                p < data@.len(),
                i <= v@.len(),
                max@.len() == dim,
                min@.len() == dim,
                forall|j: int| 0 <= j < i ==> #[trigger] max@[j] == upper_bound(data@, j, (p + 1) as nat),
                forall|j: int| 0 <= j < i ==> #[trigger] min@[j] == lower_bound(data@, j, (p + 1) as nat),
                forall|j: int| i <= j < dim ==> #[trigger] max@[j] == upper_bound(data@, j, p as nat),
                forall|j: int| i <= j < dim ==> #[trigger] min@[j] == lower_bound(data@, j, p as nat),
            decreases v@.len() - i,
        {
            if lt(max[i], v[i]) {
                max.set(i, v[i]);
            }
            if gt(min[i], v[i]) {
                min.set(i, v[i]);
            }
            i = i + 1;
        }
        assert forall|j: int| v@.len() <= j < dim implies #[trigger] max@[j] == upper_bound(data@, j, (p + 1) as nat)
            && min@[j] == lower_bound(data@, j, (p + 1) as nat) by {}
        p = p + 1;
    }
    proof {
        assert forall|j: int| 0 <= j < dim implies #[trigger] max@[j] == F32_MIN_BITS || attained(
            data@,
            j,
            data@.len(),
            max@[j],
        ) by {
            lemma_bounds_attained(data@, j, data@.len());
        }
        assert forall|j: int| 0 <= j < dim implies #[trigger] min@[j] == F32_MAX_BITS || attained(
            data@,
            j,
            data@.len(),
            min@[j],
        ) by {
            lemma_bounds_attained(data@, j, data@.len());
        }
        assert forall|j: int| 0 <= j < dim implies !spec_is_nan(#[trigger] max@[j]) by {
            lemma_bounds_enclose(data@, j, data@.len());
        }
        assert forall|j: int| 0 <= j < dim implies !spec_is_nan(#[trigger] min@[j]) by {
            lemma_bounds_enclose(data@, j, data@.len());
        }
        assert forall|q: int, j: int|
            0 <= q < data@.len() && 0 <= j < data@[q]@.len() && !spec_is_nan(#[trigger] data@[q]@[j]) implies rank(
                min@[j],
            ) <= rank(data@[q]@[j]) && rank(data@[q]@[j]) <= rank(max@[j]) by {
            lemma_bounds_enclose(data@, j, data@.len());
        }
    }
    (max, min)
}

/// Coordinate `i` of a centre after it is brought back into the box: first
/// lowered to `max[i]` if above it, then raised to `min[i]` if below it.
pub open spec fn clamp_coord(c: u32, i: int, max: Seq<u32>, min: Seq<u32>) -> u32 {
    let lowered = if i < max.len() && flt_lt(max[i], c) { max[i] } else { c };
    if i < min.len() && flt_lt(lowered, min[i]) { min[i] } else { lowered }
}

/// A coordinate inside a non-empty box comes out inside it, and one already
/// inside is left as it is.
pub proof fn lemma_clamp_within(c: u32, i: int, max: Seq<u32>, min: Seq<u32>)
    requires
        0 <= i < max.len(),
        i < min.len(),
        !spec_is_nan(c),
        !spec_is_nan(max[i]),
        !spec_is_nan(min[i]),
        rank(min[i]) <= rank(max[i]),
    ensures
        rank(min[i]) <= rank(clamp_coord(c, i, max, min)) <= rank(max[i]),
        rank(min[i]) <= rank(c) <= rank(max[i]) ==> clamp_coord(c, i, max, min) == c,
{
}

/// One centre brought back into the box.
fn clamp_centre(centre: &Vec<u32>, max: &Vec<u32>, min: &Vec<u32>) -> (out: Vec<u32>)
    requires
        centre@.len() >= max@.len(),
        centre@.len() >= min@.len(),
    ensures
        out@.len() == centre@.len(),
        forall|j: int| 0 <= j < out@.len() ==> #[trigger] out@[j] == clamp_coord(centre@[j], j, max@, min@),
{
    let mut out = centre.clone();
    assert(out@ =~= centre@);
    let mut i: usize = 0;
    while i < max.len()
        invariant
            out@.len() == centre@.len(),
            centre@.len() >= max@.len(),
            i <= max@.len(),
            forall|j: int| 0 <= j < i ==> #[trigger] out@[j] == (if flt_lt(max@[j], centre@[j]) { max@[j] } else { centre@[j] }),
            forall|j: int| i <= j < out@.len() ==> #[trigger] out@[j] == centre@[j],
        decreases max@.len() - i,
    {
        if gt(out[i], max[i]) {
            out.set(i, max[i]);
        }
        i = i + 1;
    }
    let ghost lowered = out@;
    let mut i: usize = 0;
    while i < min.len()
        invariant
            out@.len() == centre@.len(),
            lowered.len() == centre@.len(),
            centre@.len() >= min@.len(),
            i <= min@.len(),
            forall|j: int| 0 <= j < i ==> #[trigger] out@[j] == (if flt_lt(lowered[j], min@[j]) { min@[j] } else { lowered[j] }),
            forall|j: int| i <= j < out@.len() ==> #[trigger] out@[j] == lowered[j],
        decreases min@.len() - i,
    {
        if lt(out[i], min[i]) {
            out.set(i, min[i]);
        }
        i = i + 1;
    }
    out
}

/// Brings every centre of every whale back into the box `min..=max`,
/// coordinate by coordinate.
pub fn clamp_whales(whales: &mut Vec<Vec<Vec<u32>>>, max: &Vec<u32>, min: &Vec<u32>)
    requires
        forall|w: int, c: int|
            0 <= w < old(whales)@.len() && 0 <= c < old(whales)@[w]@.len() ==> #[trigger] old(whales)@[w]@[c]@.len()
                >= max@.len() && old(whales)@[w]@[c]@.len() >= min@.len(),
    ensures
        final(whales)@.len() == old(whales)@.len(),
        forall|w: int| 0 <= w < final(whales)@.len() ==> #[trigger] final(whales)@[w]@.len() == old(whales)@[w]@.len(),
        forall|w: int, c: int|
            0 <= w < final(whales)@.len() && 0 <= c < final(whales)@[w]@.len() ==> #[trigger] final(whales)@[w]@[c]@.len()
                == old(whales)@[w]@[c]@.len(),
        forall|w: int, c: int, j: int|
            0 <= w < final(whales)@.len() && 0 <= c < final(whales)@[w]@.len() && 0 <= j < final(whales)@[w]@[c]@.len()
                ==> #[trigger] final(whales)@[w]@[c]@[j] == clamp_coord(old(whales)@[w]@[c]@[j], j, max@, min@),
{
    let mut result: Vec<Vec<Vec<u32>>> = Vec::new();
    let mut w: usize = 0;
    while w < whales.len()
        invariant
            whales@ == old(whales)@,
            forall|w2: int, c: int|
                0 <= w2 < whales@.len() && 0 <= c < whales@[w2]@.len() ==> #[trigger] whales@[w2]@[c]@.len()
                    >= max@.len() && whales@[w2]@[c]@.len() >= min@.len(),
            w <= whales@.len(),
            result@.len() == w,
            forall|w2: int| 0 <= w2 < w ==> #[trigger] result@[w2]@.len() == whales@[w2]@.len(),
            forall|w2: int, c: int|
                0 <= w2 < w && 0 <= c < result@[w2]@.len() ==> #[trigger] result@[w2]@[c]@.len() == whales@[w2]@[c]@.len(),
            forall|w2: int, c: int, j: int|
                0 <= w2 < w && 0 <= c < result@[w2]@.len() && 0 <= j < result@[w2]@[c]@.len() ==> #[trigger] result@[w2]@[c]@[j]
                    == clamp_coord(whales@[w2]@[c]@[j], j, max@, min@),
        decreases whales@.len() - w,
    {
        let whale = &whales[w];
        let mut clamped: Vec<Vec<u32>> = Vec::new();
        let mut c: usize = 0;
        while c < whale.len()
            invariant
                whale@ == whales@[w as int]@,
                w < whales@.len(),
                forall|c2: int| 0 <= c2 < whale@.len() ==> #[trigger] whale@[c2]@.len() >= max@.len() && whale@[c2]@.len() >= min@.len(),
                c <= whale@.len(),
                clamped@.len() == c,
                forall|c2: int| 0 <= c2 < c ==> #[trigger] clamped@[c2]@.len() == whale@[c2]@.len(),
                forall|c2: int, j: int|
                    0 <= c2 < c && 0 <= j < clamped@[c2]@.len() ==> #[trigger] clamped@[c2]@[j] == clamp_coord(whale@[c2]@[j], j, max@, min@),
            decreases whale@.len() - c,
        {
            assert(whale@[c as int]@.len() >= max@.len());
            clamped.push(clamp_centre(&whale[c], max, min));
            c = c + 1;
        }
        result.push(clamped);
        w = w + 1;
    }
    *whales = result;
}

} // verus!
