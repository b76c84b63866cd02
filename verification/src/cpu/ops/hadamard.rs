//! The Hadamard transform undoes itself: exactly on integers, and up to rounding
//! on numbers.

use crate::cpu::ops::dsv4_quant;
use crate::cpu::ops::dsv4_quant::HADAMARD128_NORM;
use crate::float;
use crate::float::bounds;
use crate::float::fold;
use vstd::arithmetic::power2::*;
use vstd::prelude::*;

verus! {

/// Whether a stage has this stride.
pub open spec fn is_stride(h: int) -> bool {
    h == 1 || h == 2 || h == 4 || h == 8 || h == 16 || h == 32 || h == 64
}

/// How much the stages from stride `h` on grow a number: twice for each.
pub open spec fn growth(h: int) -> int {
    if h == 1 {
        128
    } else if h == 2 {
        64
    } else if h == 4 {
        32
    } else if h == 8 {
        16
    } else if h == 16 {
        8
    } else if h == 32 {
        4
    } else if h == 64 {
        2
    } else {
        1
    }
}

/// A stage on integers: sums and differences of those `h` apart.
pub open spec fn spread(x: Seq<int>, h: int) -> Seq<int> {
    Seq::new(
        x.len(),
        |i: int|
            if (i / h) % 2 == 0 {
                x[i] + x[i + h]
            } else {
                x[i - h] - x[i]
            },
    )
}

/// The stages from stride `h` on.
pub open spec fn stages(x: Seq<int>, h: int) -> Seq<int>
    decreases 128 - h,
{
    if h <= 0 || h > 64 {
        x
    } else {
        stages(spread(x, h), 2 * h)
    }
}

/// Each integer times `k`.
pub open spec fn times(x: Seq<int>, k: int) -> Seq<int> {
    Seq::new(x.len(), |i: int| x[i] * k)
}

/// A stage done twice doubles.
proof fn lemma_spread_twice(x: Seq<int>, h: int)
    requires
        x.len() == 128,
        is_stride(h),
    ensures
        spread(spread(x, h), h) == times(x, 2),
{
    let y = spread(x, h);
    assert forall|i: int| 0 <= i < 128 implies #[trigger] spread(y, h)[i] == x[i] * 2 by {
        lemma_partner(i, h);
    }
    assert(spread(y, h) =~= times(x, 2));
}

/// Where the partner of a number lies, and that they are partners.
pub proof fn lemma_partner(i: int, h: int)
    requires
        0 <= i < 128,
        is_stride(h),
    ensures
        (i / h) % 2 == 0 ==> i + h < 128 && ((i + h) / h) % 2 == 1,
        (i / h) % 2 != 0 ==> i >= h && ((i - h) / h) % 2 == 0,
{
    if h == 1 {
    } else if h == 2 {
    } else if h == 4 {
    } else if h == 8 {
    } else if h == 16 {
    } else if h == 32 {
    } else {
    }
}

/// Partners at a stride are on the same side at another one.
pub proof fn lemma_sides(i: int, h: int, k: int)
    requires
        0 <= i < 128,
        is_stride(h),
        is_stride(k),
        h < k,
    ensures
        (i / h) % 2 == 0 ==> ((i + h) / k) % 2 == (i / k) % 2,
        (i / h) % 2 != 0 ==> ((i - h) / k) % 2 == (i / k) % 2,
        ((i + k) / h) % 2 == (i / h) % 2,
        ((i - k) / h) % 2 == (i / h) % 2,
{
    let m = if k == 2 * h {
        1
    } else if k == 4 * h {
        2
    } else if k == 8 * h {
        4
    } else if k == 16 * h {
        8
    } else if k == 32 * h {
        16
    } else {
        32int
    };
    assert(k == 2 * (m * h)) by {
        assert(1 * h == h);
    }
    lemma_sides_of_multiples(i, h, k, m);
}

/// The same of a stride that is an even multiple of the other one.
proof fn lemma_sides_of_multiples(i: int, h: int, k: int, m: int)
    requires
        0 <= i,
        h > 0,
        m > 0,
        k == 2 * (m * h),
    ensures
        (i / h) % 2 == 0 ==> (i + h) / k == i / k,
        (i / h) % 2 != 0 ==> (i - h) / k == i / k,
        ((i + k) / h) % 2 == (i / h) % 2,
        ((i - k) / h) % 2 == (i / h) % 2,
{
    let t = 2 * m;
    let q = i / h;
    let r = i % h;
    vstd::arithmetic::div_mod::lemma_fundamental_div_mod(i, h);
    vstd::arithmetic::div_mod::lemma_fundamental_div_mod(q, t);
    let a = q / t;
    let b = q % t;
    assert(i + k == (q + t) * h + r && i - k == (q - t) * h + r) by (nonlinear_arith)
        requires
            i == h * q + r,
            k == 2 * (m * h),
            t == 2 * m,
    ;
    vstd::arithmetic::div_mod::lemma_fundamental_div_mod_converse(i + k, h, q + t, r);
    vstd::arithmetic::div_mod::lemma_fundamental_div_mod_converse(i - k, h, q - t, r);
    assert(t * a == 2 * (m * a)) by (nonlinear_arith)
        requires
            t == 2 * m,
    ;
    assert(i == a * k + (h * b + r) && i + h == a * k + (h * (b + 1) + r) && i - h == a * k + (h * (b
        - 1) + r)) by (nonlinear_arith)
        requires
            i == h * q + r,
            q == t * a + b,
            t == 2 * m,
            k == 2 * (m * h),
    ;
    lemma_inside_block(h, b, r, t);
    assert(h * t == k) by (nonlinear_arith)
        requires
            t == 2 * m,
            k == 2 * (m * h),
    ;
    vstd::arithmetic::div_mod::lemma_fundamental_div_mod_converse(i, k, a, h * b + r);
    if q % 2 == 0 {
        lemma_inside_block(h, b + 1, r, t);
        vstd::arithmetic::div_mod::lemma_fundamental_div_mod_converse(
            i + h,
            k,
            a,
            h * (b + 1) + r,
        );
    } else {
        lemma_inside_block(h, b - 1, r, t);
        vstd::arithmetic::div_mod::lemma_fundamental_div_mod_converse(
            i - h,
            k,
            a,
            h * (b - 1) + r,
        );
    }
}

proof fn lemma_inside_block(h: int, b: int, r: int, t: int)
    requires
        h > 0,
        0 <= b < t,
        0 <= r < h,
    ensures
        0 <= h * b + r < h * t,
{
    assert(0 <= h * b && h * b + h <= h * t) by (nonlinear_arith)
        requires
            h > 0,
            0 <= b,
            b + 1 <= t,
    ;
}

/// Two stages can be done in either order.
proof fn lemma_spread_commutes(x: Seq<int>, h: int, k: int)
    requires
        x.len() == 128,
        is_stride(h),
        is_stride(k),
        h < k,
    ensures
        spread(spread(x, h), k) == spread(spread(x, k), h),
{
    let a = spread(x, h);
    let b = spread(x, k);
    assert forall|i: int| 0 <= i < 128 implies #[trigger] spread(a, k)[i] == spread(b, h)[i] by {
        lemma_partner(i, h);
        lemma_partner(i, k);
        lemma_sides(i, h, k);
        let j = if (i / h) % 2 == 0 {
            i + h
        } else {
            i - h
        };
        let l = if (i / k) % 2 == 0 {
            i + k
        } else {
            i - k
        };
        lemma_partner(j, k);
        lemma_partner(l, h);
    }
    assert(spread(a, k) =~= spread(b, h));
}

/// An earlier stage can be done behind later ones.
proof fn lemma_stages_commute(x: Seq<int>, h: int, k: int)
    requires
        x.len() == 128,
        is_stride(h),
        is_stride(k) || k == 128,
        h < k,
    ensures
        spread(stages(x, k), h) == stages(spread(x, h), k),
        stages(x, k).len() == 128,
    decreases 128 - k,
{
    if k <= 64 {
        lemma_stages_commute(spread(x, k), h, 2 * k);
        lemma_spread_commutes(x, h, k);
    }
}

/// Stages multiply as their input does.
proof fn lemma_stages_times(x: Seq<int>, f: int, h: int)
    requires
        x.len() == 128,
        is_stride(h) || h == 128,
    ensures
        stages(times(x, f), h) == times(stages(x, h), f),
        stages(x, h).len() == 128,
    decreases 128 - h,
{
    if h <= 64 {
        let y = spread(x, h);
        assert forall|i: int| 0 <= i < 128 implies #[trigger] spread(times(x, f), h)[i] == times(
            y,
            f,
        )[i] by {
            lemma_partner(i, h);
            let a = if (i / h) % 2 == 0 {
                x[i]
            } else {
                x[i - h]
            };
            let b = if (i / h) % 2 == 0 {
                x[i + h]
            } else {
                x[i]
            };
            assert((a + b) * f == a * f + b * f) by (nonlinear_arith);
            assert((a - b) * f == a * f - b * f) by (nonlinear_arith);
        }
        assert(spread(times(x, f), h) =~= times(y, f));
        lemma_stages_times(y, f, 2 * h);
    } else {
        assert(stages(times(x, f), h) =~= times(stages(x, h), f));
    }
}

/// The stages from stride `h` on, done twice.
proof fn lemma_stages_twice(x: Seq<int>, h: int)
    requires
        x.len() == 128,
        is_stride(h) || h == 128,
    ensures
        stages(stages(x, h), h) == times(x, growth(h)),
    decreases 128 - h,
{
    if h <= 64 {
        let y = stages(x, h);
        lemma_stages_commute(spread(x, h), h, 2 * h);
        lemma_spread_twice(x, h);
        assert(spread(y, h) == stages(times(x, 2), 2 * h));
        lemma_stages_times(x, 2, 2 * h);
        let z = stages(x, 2 * h);
        lemma_stages_times(z, 2, 2 * h);
        lemma_stages_twice(x, 2 * h);
        assert(stages(y, h) == times(times(x, growth(2 * h)), 2));
        let f = growth(2 * h);
        assert(growth(h) == f * 2);
        assert forall|i: int| 0 <= i < 128 implies (#[trigger] x[i] * f) * 2 == x[i] * (f * 2) by {
            let v = x[i];
            assert((v * f) * 2 == v * (f * 2)) by (nonlinear_arith);
        }
        assert(times(times(x, f), 2) =~= times(x, f * 2));
    } else {
        assert(stages(stages(x, h), h) =~= times(x, 1));
    }
}

/// On integers the transform, done twice, multiplies by 128.
pub proof fn law_exact_transform_undoes_itself(x: Seq<int>)
    requires
        x.len() == 128,
    ensures
        stages(stages(x, 1), 1) == times(x, 128),
{
    lemma_stages_twice(x, 1);
}

/// Whether sequences are at most `e` apart everywhere.
pub open spec fn within(a: Seq<int>, b: Seq<int>, e: int) -> bool {
    &&& a.len() == b.len()
    &&& forall|i: int| 0 <= i < a.len() ==> bounds::size(#[trigger] a[i] - b[i]) <= e
}

/// What is close stays close, up to a factor.
proof fn lemma_stages_close(a: Seq<int>, b: Seq<int>, e: int, h: int)
    requires
        a.len() == 128,
        within(a, b, e),
        is_stride(h) || h == 128,
    ensures
        within(stages(a, h), stages(b, h), growth(h) * e),
    decreases 128 - h,
{
    if h <= 64 {
        let p = spread(a, h);
        let q = spread(b, h);
        assert forall|i: int| 0 <= i < 128 implies bounds::size(#[trigger] p[i] - q[i]) <= 2 * e by {
            lemma_partner(i, h);
            let j = if (i / h) % 2 == 0 {
                i + h
            } else {
                i - h
            };
            assert(bounds::size(a[i] - b[i]) <= e);
            assert(bounds::size(a[j] - b[j]) <= e);
        }
        lemma_stages_close(p, q, 2 * e, 2 * h);
        let f = growth(2 * h);
        assert(growth(h) == f * 2);
        assert(f * (2 * e) == (f * 2) * e) by (nonlinear_arith);
    }
}

/// The stages on numbers, from stride `h` on.
pub open spec fn rounded_stages(x: Seq<u32>, h: int) -> Seq<u32>
    decreases 128 - h,
{
    if h <= 0 || h > 64 {
        x
    } else {
        rounded_stages(dsv4_quant::butterfly(x, h), 2 * h)
    }
}

/// Whether every number is finite.
pub open spec fn all_finite(x: Seq<u32>) -> bool {
    forall|i: int| 0 <= i < x.len() ==> float::is_finite(#[trigger] x[i])
}

/// The values of numbers, in units.
pub open spec fn values(x: Seq<u32>) -> Seq<int> {
    Seq::new(x.len(), |i: int| float::value(x[i]))
}

/// The transform is its stages and a scale.
proof fn lemma_transformed(x: Seq<u32>)
    ensures
        dsv4_quant::transformed(x) == fold::scaled(rounded_stages(x, 1), HADAMARD128_NORM),
{
    reveal_with_fuel(rounded_stages, 9);
}

/// What comes out of a stage is finite only where what goes in is.
proof fn lemma_stage_finite(x: Seq<u32>, h: int)
    requires
        x.len() == 128,
        is_stride(h),
        all_finite(dsv4_quant::butterfly(x, h)),
    ensures
        all_finite(x),
{
    let y = dsv4_quant::butterfly(x, h);
    assert forall|i: int| 0 <= i < 128 implies float::is_finite(#[trigger] x[i]) by {
        lemma_partner(i, h);
        assert(float::is_finite(y[i]));
        if (i / h) % 2 == 0 {
            bounds::law_sum_error(x[i], x[i + h]);
        } else {
            bounds::law_difference_error(x[i - h], x[i]);
        }
    }
}

/// What comes out of the stages is finite only where what goes in is.
proof fn lemma_stages_finite(x: Seq<u32>, h: int)
    requires
        x.len() == 128,
        is_stride(h) || h == 128,
        all_finite(rounded_stages(x, h)),
    ensures
        all_finite(x),
        rounded_stages(x, h).len() == 128,
    decreases 128 - h,
{
    if h <= 64 {
        lemma_stages_finite(dsv4_quant::butterfly(x, h), 2 * h);
        lemma_stage_finite(x, h);
    }
}

/// Whether numbers are close to integers of at most `b`: off by at most `k`
/// times 2^-23 of that.
spec fn tracks(f: Seq<u32>, g: Seq<int>, k: int, b: int) -> bool {
    &&& f.len() == g.len()
    &&& forall|i: int|
        0 <= i < f.len() ==> bounds::size(#[trigger] g[i]) <= b && 0x80_0000 * bounds::size(
            float::value(f[i]) - g[i],
        ) <= k * b
}

/// A stage rounds once more.
proof fn lemma_stage_tracks(f: Seq<u32>, g: Seq<int>, h: int, k: int, b: int)
    requires
        f.len() == 128,
        is_stride(h),
        0 <= k <= 7,
        b >= 0,
        tracks(f, g, k, b),
        all_finite(dsv4_quant::butterfly(f, h)),
    ensures
        tracks(dsv4_quant::butterfly(f, h), spread(g, h), k + 1, 2 * b),
{
    let y = dsv4_quant::butterfly(f, h);
    let z = spread(g, h);
    assert(k * b <= 7 * b) by (nonlinear_arith)
        requires
            k <= 7,
            b >= 0,
    ;
    assert((k + 1) * (2 * b) == 2 * (k * b) + 2 * b) by (nonlinear_arith);
    assert forall|i: int| 0 <= i < 128 implies bounds::size(#[trigger] z[i]) <= 2 * b && 0x80_0000
        * bounds::size(float::value(y[i]) - z[i]) <= (k + 1) * (2 * b) by {
        lemma_partner(i, h);
        assert(float::is_finite(y[i]));
        let j = if (i / h) % 2 == 0 {
            i + h
        } else {
            i - h
        };
        assert(bounds::size(g[i]) <= b && bounds::size(g[j]) <= b);
        if (i / h) % 2 == 0 {
            bounds::law_sum_error(f[i], f[j]);
        } else {
            bounds::law_difference_error(f[j], f[i]);
        }
    }
}

/// The stages, rounded, are close to the exact ones.
proof fn lemma_stages_track(f: Seq<u32>, g: Seq<int>, h: int, k: int, b: int)
    requires
        f.len() == 128,
        is_stride(h) || h == 128,
        0 <= k,
        (h == 1 && k == 0) || (h == 2 && k == 1) || (h == 4 && k == 2) || (h == 8 && k == 3) || (h
            == 16 && k == 4) || (h == 32 && k == 5) || (h == 64 && k == 6) || (h == 128 && k == 7),
        b >= 0,
        tracks(f, g, k, b),
        all_finite(rounded_stages(f, h)),
    ensures
        tracks(rounded_stages(f, h), stages(g, h), 7, growth(h) * b),
    decreases 128 - h,
{
    if h <= 64 {
        let y = dsv4_quant::butterfly(f, h);
        lemma_stages_finite(y, 2 * h);
        lemma_stage_tracks(f, g, h, k, b);
        lemma_stages_track(y, spread(g, h), 2 * h, k + 1, 2 * b);
        let q = growth(2 * h);
        assert(growth(h) == q * 2);
        assert(q * (2 * b) == (q * 2) * b) by (nonlinear_arith);
    }
}

/// The scale of the transform, in units.
pub open spec fn norm() -> int {
    float::value(HADAMARD128_NORM)
}

/// The square of the scale is a 128th, up to 2^-23.
proof fn lemma_norm()
    ensures
        norm() > 0,
        11 * norm() <= bounds::one(),
        128 * norm() <= 12 * bounds::one(),
        0x2000 * (128 * norm()) <= 92700 * bounds::one(),
        0x80_0000 * bounds::size(128 * (norm() * norm()) - bounds::one() * bounds::one())
            <= bounds::one() * bounds::one(),
        bounds::one() > 0x100_0000,
{
    lemma2_to64();
    let k = pow2(122) as int;
    lemma_pow2_pos(122);
    lemma_pow2_adds(27, 122);
    let mag = float::magnitude(HADAMARD128_NORM);
    assert(float::exponent(mag) == 122 && float::significand(mag) == 11863283);
    let c = norm();
    let u = bounds::one();
    assert(c == 11863283 * k);
    assert(u == 0x800_0000 * k);
    let kk = k * k;
    assert(kk > 0) by (nonlinear_arith)
        requires
            k > 0,
            kk == k * k,
    ;
    assert(c * c == 140737483538089 * kk) by (nonlinear_arith)
        requires
            c == 11863283 * k,
            kk == k * k,
    ;
    assert(u * u == 0x40_0000_0000_0000 * kk) by (nonlinear_arith)
        requires
            u == 0x800_0000 * k,
            kk == k * k,
    ;
    assert(128 * (c * c) - u * u == -616606592 * kk);
}

/// The transform is close to the exact one: where no number is above `most`, each
/// result is the exact one times the scale, up to 2^-13 of `most` times the scale
/// and one unit.
pub proof fn law_transform_error(x: Seq<u32>, most: int, i: int)
    requires
        x.len() == 128,
        all_finite(dsv4_quant::transformed(x)),
        forall|j: int| 0 <= j < 128 ==> bounds::size(#[trigger] values(x)[j]) <= most,
        0 <= i < 128,
    ensures
        0x2000 * bounds::size(
            float::value(dsv4_quant::transformed(x)[i]) * bounds::one() - stages(values(x), 1)[i]
                * norm(),
        ) <= most * norm() + 0x2000 * bounds::one(),
        bounds::size(stages(values(x), 1)[i]) <= 128 * most,
{
    let f = rounded_stages(x, 1);
    let y = dsv4_quant::transformed(x);
    let g = stages(values(x), 1);
    lemma_transformed(x);
    lemma_norm();
    lemma_length(x, 1);
    assert forall|j: int| 0 <= j < f.len() implies float::is_finite(#[trigger] f[j]) by {
        assert(float::is_finite(y[j]));
        bounds::law_product_error(f[j], HADAMARD128_NORM);
    }
    assert(bounds::size(values(x)[0]) <= most);
    assert(0 * most == 0) by (nonlinear_arith);
    lemma_stages_track(x, values(x), 1, 0, most);
    assert(float::is_finite(y[i]));
    bounds::law_product_error(f[i], HADAMARD128_NORM);
    assert(bounds::size(g[i]) <= 128 * most);
    lemma_scaled_error(
        float::value(f[i]),
        g[i],
        float::value(y[i]),
        norm(),
        bounds::one(),
        most,
    );
}

proof fn lemma_length(x: Seq<u32>, h: int)
    requires
        is_stride(h) || h == 128,
    ensures
        rounded_stages(x, h).len() == x.len(),
    decreases 128 - h,
{
    if h <= 64 {
        lemma_length(dsv4_quant::butterfly(x, h), 2 * h);
    }
}

proof fn lemma_scaled_error(f: int, g: int, y: int, c: int, u: int, m: int)
    requires
        c > 0,
        u > 0,
        m >= 0,
        bounds::size(g) <= 128 * m,
        0x80_0000 * bounds::size(f - g) <= 7 * (128 * m),
        0x100_0000 * bounds::size(y * u - f * c) <= bounds::size(f * c) + 0x80_0000 * u,
    ensures
        0x2000 * bounds::size(y * u - g * c) <= m * c + 0x2000 * u,
{
    let mc = m * c;
    assert(mc >= 0) by (nonlinear_arith)
        requires
            m >= 0,
            c > 0,
            mc == m * c,
    ;
    let e = f - g;
    let z = bounds::size(e);
    assert(f * c == g * c + e * c) by (nonlinear_arith)
        requires
            e == f - g,
    ;
    assert(bounds::size(e * c) == z * c) by (nonlinear_arith)
        requires
            c > 0,
            z == if e < 0 {
                -e
            } else {
                e
            },
            bounds::size(e * c) == if e * c < 0 {
                -(e * c)
            } else {
                e * c
            },
    ;
    assert(0x80_0000 * (z * c) <= 896 * mc) by (nonlinear_arith)
        requires
            0x80_0000 * z <= 896 * m,
            c > 0,
            mc == m * c,
    ;
    let s = bounds::size(f);
    assert(s <= 129 * m);
    assert(bounds::size(f * c) == s * c) by (nonlinear_arith)
        requires
            c > 0,
            s == if f < 0 {
                -f
            } else {
                f
            },
            bounds::size(f * c) == if f * c < 0 {
                -(f * c)
            } else {
                f * c
            },
    ;
    assert(s * c <= 129 * mc) by (nonlinear_arith)
        requires
            s <= 129 * m,
            c > 0,
            mc == m * c,
    ;
}

/// The transform undoes itself up to rounding: where no number is above `most`,
/// each comes back from two transforms up to 2^-11 of `most` and 16 units.
pub proof fn law_transform_undoes_itself(x: Seq<u32>, most: int, i: int)
    requires
        x.len() == 128,
        all_finite(dsv4_quant::transformed(dsv4_quant::transformed(x))),
        forall|j: int| 0 <= j < 128 ==> bounds::size(#[trigger] values(x)[j]) <= most,
        0 <= i < 128,
    ensures
        0x800 * bounds::size(
            float::value(dsv4_quant::transformed(dsv4_quant::transformed(x))[i]) - float::value(
                x[i],
            ),
        ) <= most + 0x8000,
{
    let y = dsv4_quant::transformed(x);
    assert(y.len() == 128) by {
        lemma_transformed(x);
        lemma_length(x, 1);
    }
    assert(all_finite(y)) by {
        lemma_transformed_finite(y);
    }
    lemma_first_transform(x, most);
    lemma_second_transform(x, most, i);
    assert(bounds::size(values(x)[i]) <= most);
    lemma_undone(values(x)[i], y, most, i);
}

/// The second transform brings a number back.
proof fn lemma_undone(x: int, y: Seq<u32>, most: int, i: int)
    requires
        y.len() == 128,
        all_finite(dsv4_quant::transformed(y)),
        bounds::size(x) <= most,
        forall|j: int| 0 <= j < 128 ==> bounds::size(#[trigger] values(y)[j]) <= 12 * most + 1,
        bounds::size(
            stages(values(y), 1)[i] * (0x2000 * bounds::one()) - (x * 128) * (0x2000 * norm()),
        ) <= 128 * (most * norm() + 0x2000 * bounds::one()),
        0 <= i < 128,
    ensures
        0x800 * bounds::size(float::value(dsv4_quant::transformed(y)[i]) - x) <= most + 0x8000,
{
    lemma_norm();
    law_transform_error(y, 12 * most + 1, i);
    lemma_return(
        float::value(dsv4_quant::transformed(y)[i]),
        x,
        stages(values(y), 1)[i],
        norm(),
        bounds::one(),
        most,
    );
}

/// What comes out of a transform is finite only where what goes in is.
proof fn lemma_transformed_finite(x: Seq<u32>)
    requires
        x.len() == 128,
        all_finite(dsv4_quant::transformed(x)),
    ensures
        all_finite(x),
        dsv4_quant::transformed(x).len() == 128,
{
    lemma_transformed(x);
    lemma_length(x, 1);
    let y = dsv4_quant::transformed(x);
    let f = rounded_stages(x, 1);
    assert forall|j: int| 0 <= j < f.len() implies float::is_finite(#[trigger] f[j]) by {
        assert(float::is_finite(y[j]));
        bounds::law_product_error(f[j], HADAMARD128_NORM);
    }
    lemma_stages_finite(x, 1);
}

/// What one transform gives, scaled up to whole units.
proof fn lemma_first_transform(x: Seq<u32>, most: int)
    requires
        x.len() == 128,
        all_finite(dsv4_quant::transformed(x)),
        forall|j: int| 0 <= j < 128 ==> bounds::size(#[trigger] values(x)[j]) <= most,
    ensures
        ({
            let vy = values(dsv4_quant::transformed(x));
            &&& vy.len() == 128
            &&& stages(values(x), 1).len() == 128
            &&& forall|j: int| 0 <= j < 128 ==> bounds::size(#[trigger] vy[j]) <= 12 * most + 1
            &&& within(
                times(vy, 0x2000 * bounds::one()),
                times(stages(values(x), 1), 0x2000 * norm()),
                most * norm() + 0x2000 * bounds::one(),
            )
        }),
{
    lemma_norm();
    lemma_transformed_finite(x);
    let vx = values(x);
    let vy = values(dsv4_quant::transformed(x));
    let g = stages(vx, 1);
    let c = norm();
    let u = bounds::one();
    lemma_stages_times(vx, 1, 1);
    let a = times(vy, 0x2000 * u);
    let b = times(g, 0x2000 * c);
    let e = most * c + 0x2000 * u;
    assert(bounds::size(values(x)[0]) <= most);
    assert forall|j: int| 0 <= j < 128 implies bounds::size(#[trigger] vy[j]) <= 12 * most + 1 by {
        law_transform_error(x, most, j);
        lemma_result_bound(vy[j], g[j], c, u, most);
    }
    assert forall|j: int| 0 <= j < 128 implies bounds::size(#[trigger] a[j] - b[j]) <= e by {
        law_transform_error(x, most, j);
        lemma_scaled_up(vy[j], u);
        lemma_scaled_up(g[j], c);
    }
}

proof fn lemma_scaled_up(p: int, u: int)
    ensures
        p * (0x2000 * u) == 0x2000 * (p * u),
{
    assert(p * (0x2000 * u) == 0x2000 * (p * u)) by (nonlinear_arith);
}

/// What the exact stages make of one transform.
proof fn lemma_second_transform(x: Seq<u32>, most: int, i: int)
    requires
        x.len() == 128,
        all_finite(dsv4_quant::transformed(x)),
        forall|j: int| 0 <= j < 128 ==> bounds::size(#[trigger] values(x)[j]) <= most,
        0 <= i < 128,
    ensures
        ({
            let h = stages(values(dsv4_quant::transformed(x)), 1)[i];
            bounds::size(
                h * (0x2000 * bounds::one()) - (values(x)[i] * 128) * (0x2000 * norm()),
            ) <= 128 * (most * norm() + 0x2000 * bounds::one())
        }),
{
    let vx = values(x);
    let vy = values(dsv4_quant::transformed(x));
    let g = stages(vx, 1);
    let c = norm();
    let u = bounds::one();
    lemma_first_transform(x, most);
    let a = times(vy, 0x2000 * u);
    let b = times(g, 0x2000 * c);
    lemma_stages_close(a, b, most * c + 0x2000 * u, 1);
    lemma_stages_times(vy, 0x2000 * u, 1);
    lemma_stages_times(g, 0x2000 * c, 1);
    law_exact_transform_undoes_itself(vx);
    lemma_stages_times(a, 1, 1);
    assert(bounds::size(stages(a, 1)[i] - stages(b, 1)[i]) <= growth(1) * (most * c + 0x2000 * u));
}

proof fn lemma_result_bound(p: int, q: int, c: int, u: int, m: int)
    requires
        u > 0,
        c > 0,
        m >= 0,
        11 * c <= u,
        0x2000 * (128 * c) <= 92700 * u,
        bounds::size(q) <= 128 * m,
        0x2000 * bounds::size(p * u - q * c) <= m * c + 0x2000 * u,
    ensures
        bounds::size(p) <= 12 * m + 1,
{
    let s = bounds::size(q);
    assert(bounds::size(q * c) == s * c) by (nonlinear_arith)
        requires
            c > 0,
            s == if q < 0 {
                -q
            } else {
                q
            },
            bounds::size(q * c) == if q * c < 0 {
                -(q * c)
            } else {
                q * c
            },
    ;
    let mu = m * u;
    assert(0x2000 * (s * c) <= 92700 * mu) by (nonlinear_arith)
        requires
            s <= 128 * m,
            s >= 0,
            c > 0,
            m >= 0,
            0x2000 * (128 * c) <= 92700 * u,
            mu == m * u,
    ;
    assert(11 * (m * c) <= mu) by (nonlinear_arith)
        requires
            11 * c <= u,
            m >= 0,
            mu == m * u,
    ;
    let r = bounds::size(p);
    assert(bounds::size(p * u) == r * u) by (nonlinear_arith)
        requires
            u > 0,
            r == if p < 0 {
                -p
            } else {
                p
            },
            bounds::size(p * u) == if p * u < 0 {
                -(p * u)
            } else {
                p * u
            },
    ;
    assert(r * u <= 12 * mu + u);
    assert(r <= 12 * m + 1) by (nonlinear_arith)
        requires
            r * u <= 12 * mu + u,
            mu == m * u,
            u > 0,
    ;
}

proof fn lemma_return(z: int, x: int, h: int, c: int, u: int, m: int)
    requires
        u > 0,
        c > 0,
        m >= 0,
        11 * c <= u,
        128 * c <= 12 * u,
        0x80_0000 * bounds::size(128 * (c * c) - u * u) <= u * u,
        bounds::size(x) <= m,
        bounds::size(h * (0x2000 * u) - (x * 128) * (0x2000 * c)) <= 128 * (m * c + 0x2000 * u),
        0x2000 * bounds::size(z * u - h * c) <= (12 * m + 1) * c + 0x2000 * u,
    ensures
        0x800 * bounds::size(z - x) <= m + 0x8000,
{
    let uu = u * u;
    let cc = c * c;
    let muu = m * uu;
    let e4 = z * u - h * c;
    let e5 = h * (0x2000 * u) - (x * 128) * (0x2000 * c);
    let e6 = 128 * cc - uu;
    assert(uu > 0) by (nonlinear_arith)
        requires
            u > 0,
            uu == u * u,
    ;
    // 2^13 u^2 (z - x) in terms of the three errors.
    assert(0x2000 * ((z - x) * uu) == e5 * c + 0x2000 * (e4 * u) + 0x2000 * (x * e6)) by {
        assert((z - x) * uu == z * uu - x * uu) by (nonlinear_arith);
        assert(e4 * u == (z * u) * u - (h * c) * u) by (nonlinear_arith)
            requires
                e4 == z * u - h * c,
        ;
        assert((z * u) * u == z * (u * u)) by (nonlinear_arith);
        assert(e5 * c == (h * (0x2000 * u)) * c - ((x * 128) * (0x2000 * c)) * c) by (nonlinear_arith)
            requires
                e5 == h * (0x2000 * u) - (x * 128) * (0x2000 * c),
        ;
        assert((h * (0x2000 * u)) * c == 0x2000 * ((h * c) * u)) by (nonlinear_arith);
        assert(((x * 128) * (0x2000 * c)) * c == 0x2000 * (x * (128 * (c * c)))) by (nonlinear_arith);
        assert(x * e6 == x * (128 * cc) - x * uu) by (nonlinear_arith)
            requires
                e6 == 128 * cc - uu,
        ;
    }
    let z5 = bounds::size(e5);
    let z4 = bounds::size(e4);
    let z6 = bounds::size(e6);
    let cu = c * u;
    assert(11 * cu <= uu && cu >= 0) by (nonlinear_arith)
        requires
            11 * c <= u,
            u > 0,
            c > 0,
            cu == c * u,
            uu == u * u,
    ;
    assert(128 * cu <= 12 * uu) by (nonlinear_arith)
        requires
            128 * c <= 12 * u,
            u > 0,
            cu == c * u,
            uu == u * u,
    ;
    assert(bounds::size(e5 * c) <= 2 * muu + 0x1_8000 * uu) by {
        assert(bounds::size(e5 * c) == z5 * c) by (nonlinear_arith)
            requires
                c > 0,
                z5 == if e5 < 0 {
                    -e5
                } else {
                    e5
                },
                bounds::size(e5 * c) == if e5 * c < 0 {
                    -(e5 * c)
                } else {
                    e5 * c
                },
        ;
        assert(z5 * c <= m * (128 * cc) + 0x2000 * (128 * cu)) by (nonlinear_arith)
            requires
                z5 <= 128 * (m * c + 0x2000 * u),
                c > 0,
                cc == c * c,
                cu == c * u,
        ;
        assert(m * (128 * cc) <= m * (2 * uu)) by (nonlinear_arith)
            requires
                128 * cc <= 2 * uu,
                m >= 0,
        ;
        assert(m * (2 * uu) == 2 * muu) by (nonlinear_arith)
            requires
                muu == m * uu,
        ;
    }
    assert(0x2000 * bounds::size(e4 * u) <= 12 * (m * cu) + cu + 0x2000 * uu) by {
        assert(bounds::size(e4 * u) == z4 * u) by (nonlinear_arith)
            requires
                u > 0,
                z4 == if e4 < 0 {
                    -e4
                } else {
                    e4
                },
                bounds::size(e4 * u) == if e4 * u < 0 {
                    -(e4 * u)
                } else {
                    e4 * u
                },
        ;
        assert(0x2000 * (z4 * u) <= 12 * (m * cu) + cu + 0x2000 * uu) by (nonlinear_arith)
            requires
                0x2000 * z4 <= (12 * m + 1) * c + 0x2000 * u,
                u > 0,
                cu == c * u,
                uu == u * u,
        ;
    }
    assert(11 * (m * cu) <= muu) by (nonlinear_arith)
        requires
            11 * cu <= uu,
            m >= 0,
            muu == m * uu,
    ;
    assert(0x80_0000 * bounds::size(x * e6) <= muu) by {
        let s = bounds::size(x);
        assert(bounds::size(x * e6) == s * z6) by (nonlinear_arith)
            requires
                s == if x < 0 {
                    -x
                } else {
                    x
                },
                z6 == if e6 < 0 {
                    -e6
                } else {
                    e6
                },
                bounds::size(x * e6) == if x * e6 < 0 {
                    -(x * e6)
                } else {
                    x * e6
                },
        ;
        assert(0x80_0000 * (s * z6) <= muu) by (nonlinear_arith)
            requires
                0x80_0000 * z6 <= uu,
                s <= m,
                s >= 0,
                z6 >= 0,
                muu == m * uu,
        ;
    }
    assert(muu >= 0) by (nonlinear_arith)
        requires
            m >= 0,
            uu > 0,
            muu == m * uu,
    ;
    let gap = bounds::size(z - x);
    assert(bounds::size((z - x) * uu) == gap * uu) by (nonlinear_arith)
        requires
            uu > 0,
            gap == if z - x < 0 {
                -(z - x)
            } else {
                z - x
            },
            bounds::size((z - x) * uu) == if (z - x) * uu < 0 {
                -((z - x) * uu)
            } else {
                (z - x) * uu
            },
    ;
    assert(0x2000 * (gap * uu) <= 4 * muu + 0x2_0000 * uu);
    assert(0x2000 * gap <= 4 * m + 0x2_0000) by (nonlinear_arith)
        requires
            0x2000 * (gap * uu) <= 4 * muu + 0x2_0000 * uu,
            muu == m * uu,
            uu > 0,
    ;
}

} // verus!
