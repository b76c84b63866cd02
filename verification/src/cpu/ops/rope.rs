//! Rotary position embedding with the YaRN frequency scaling.
//!
//! The last `n_rot` numbers of each head are taken in pairs, and each pair is
//! turned by an angle that grows with the position. The angles fall from pair
//! to pair. YaRN mixes the plain angle of a pair with a scaled one.

use crate::buffer::overwrite;
use crate::cpu::capability::SimdTier;
use crate::cpu::error::Error;
use crate::cpu::ops::sinkhorn::TWO;
use crate::float;
use crate::float::arith;
use crate::float::arith::{fadd, fdiv, finite, fmul, fneg, from_i64, from_u64, fsub, nan};
use crate::float::fold::ONE;
use crate::float::function;
use crate::float::integer;
use crate::float::order;
use crate::float::order::{feq, flt};
use vstd::prelude::*;

verus! {

/// Minus two, as bits.
pub const MINUS_TWO: u32 = 0xC000_0000;

/// Half of a turn, as bits.
pub const PI: u32 = 0x4049_0FDB;

/// A thousandth, as bits.
pub const THOUSANDTH: u32 = 0x3A83_126F;

/// A tenth, as bits.
pub const TENTH: u32 = 0x3DCC_CCCD;

/// How heads are rotated. Fractions are given as bits.
#[derive(Debug, Clone, Copy)]
pub struct RoPEParams {
    /// Number of heads.
    pub n_head: u32,
    /// Numbers of a head.
    pub head_dim: u32,
    /// How many of them, at the end of the head, are rotated.
    pub n_rot: u32,
    /// Position of the token.
    pub pos: u32,
    /// Context length of the training.
    pub n_ctx_orig: u64,
    /// Base of the frequencies.
    pub freq_base: u32,
    /// What the frequencies are multiplied by.
    pub freq_scale: u32,
    /// How much of the plain angle is mixed in; zero for none.
    pub ext_factor: u32,
    /// What the result is multiplied by.
    pub attn_factor: u32,
    /// Turns above which a pair keeps its plain angle.
    pub beta_fast: u32,
    /// Turns below which a pair has its scaled angle.
    pub beta_slow: u32,
    /// Whether to rotate back.
    pub inverse: bool,
}

/// The functions that angles are made of.
pub struct Functions {
    pub powf: spec_fn(u32, u32) -> u32,
    pub ln: spec_fn(u32) -> u32,
    pub cos: spec_fn(u32) -> u32,
    pub sin: spec_fn(u32) -> u32,
}

/// Whether four closures compute the functions.
pub open spec fn computed<
    P: Fn(u32, u32) -> u32,
    L: Fn(u32) -> u32,
    C: Fn(u32) -> u32,
    S: Fn(u32) -> u32,
>(powf: &P, ln: &L, cos: &C, sin: &S, f: Functions) -> bool {
    &&& forall|a: u32, b: u32, r: u32| #[trigger]
        call_ensures(powf, (a, b), r) ==> r == (f.powf)(a, b)
    &&& function::computes(ln, f.ln)
    &&& function::computes(cos, f.cos)
    &&& function::computes(sin, f.sin)
}

/// The higher of two numbers; the other one where one is no number.
pub open spec fn higher(a: u32, b: u32) -> u32 {
    if float::is_nan(a) {
        b
    } else if order::less(a, b) {
        b
    } else {
        a
    }
}

/// The lower of two numbers; the other one where one is no number.
pub open spec fn lower(a: u32, b: u32) -> u32 {
    if float::is_nan(a) {
        b
    } else if order::less(b, a) {
        b
    } else {
        a
    }
}

/// A number brought between zero and one.
pub open spec fn unit(y: u32) -> u32 {
    if order::less(y, 0) {
        0
    } else if order::less(ONE, y) {
        ONE
    } else {
        y
    }
}

impl RoPEParams {
    /// Whether YaRN mixes angles.
    pub open spec fn mixes(self) -> bool {
        !order::same(self.ext_factor, 0)
    }

    /// What the angle is multiplied by from pair to pair.
    pub open spec fn falloff(self, f: Functions) -> u32 {
        (f.powf)(self.freq_base, arith::quotient(MINUS_TWO, arith::of_integer(self.n_rot as int)))
    }

    /// The place of the pair that makes `beta` turns in the context of the
    /// training.
    pub open spec fn turning_place(self, beta: u32, f: Functions) -> u32 {
        let turns = arith::quotient(
            arith::of_integer(self.n_ctx_orig as int),
            arith::product(arith::product(beta, TWO), PI),
        );
        arith::quotient(
            arith::product(arith::of_integer(self.n_rot as int), (f.ln)(turns)),
            arith::product(TWO, (f.ln)(self.freq_base)),
        )
    }

    /// Up to which place pairs keep their plain angle.
    pub open spec fn ramp_start(self, f: Functions) -> u32 {
        higher(integer::floored(self.turning_place(self.beta_fast, f)), 0)
    }

    /// From which place on pairs have their scaled angle.
    pub open spec fn ramp_end(self, f: Functions) -> u32 {
        lower(
            integer::ceiled(self.turning_place(self.beta_slow, f)),
            arith::of_integer(self.n_rot - 1),
        )
    }

    /// How much of the plain angle pair `k` has: all before the ramp, none
    /// after it.
    pub open spec fn ramp(self, k: int, f: Functions) -> u32 {
        let start = self.ramp_start(f);
        let y = arith::quotient(
            arith::difference(arith::of_integer(k), start),
            higher(arith::difference(self.ramp_end(f), start), THOUSANDTH),
        );
        arith::difference(ONE, unit(y))
    }

    /// The plain angle of pair `k`.
    pub open spec fn plain(self, k: nat, f: Functions) -> u32
        decreases k,
    {
        if k == 0 {
            arith::of_integer(self.pos as int)
        } else {
            arith::product(self.plain((k - 1) as nat, f), self.falloff(f))
        }
    }

    /// The angle of pair `k`.
    pub open spec fn angle(self, k: int, f: Functions) -> u32 {
        let plain = self.plain(k as nat, f);
        let scaled = arith::product(self.freq_scale, plain);
        if self.mixes() {
            let mix = arith::product(self.ramp(k, f), self.ext_factor);
            arith::sum(
                arith::product(scaled, arith::difference(ONE, mix)),
                arith::product(plain, mix),
            )
        } else {
            scaled
        }
    }

    /// What the rotated numbers are multiplied by.
    pub open spec fn gain(self, f: Functions) -> u32 {
        if self.mixes() {
            arith::product(
                self.attn_factor,
                arith::sum(
                    ONE,
                    arith::product(TENTH, (f.ln)(arith::quotient(ONE, self.freq_scale))),
                ),
            )
        } else {
            self.attn_factor
        }
    }

    /// The cosine that pair `k` is rotated with.
    pub open spec fn cosine(self, k: int, f: Functions) -> u32 {
        arith::product((f.cos)(self.angle(k, f)), self.gain(f))
    }

    /// The sine that pair `k` is rotated with.
    pub open spec fn sine(self, k: int, f: Functions) -> u32 {
        let sign = if self.inverse {
            arith::negated(ONE)
        } else {
            ONE
        };
        arith::product(arith::product(sign, (f.sin)(self.angle(k, f))), self.gain(f))
    }

    /// How many numbers of a head are not rotated.
    pub open spec fn still(self) -> int {
        self.head_dim - self.n_rot
    }

    /// The heads after the rotation, given the cosines and sines of the pairs.
    pub open spec fn turned(self, x: Seq<u32>, cosines: Seq<u32>, sines: Seq<u32>) -> Seq<u32> {
        Seq::new(
            x.len(),
            |i: int|
                {
                    let d = i % (self.head_dim as int) - self.still();
                    if d < 0 {
                        x[i]
                    } else if d % 2 == 0 {
                        arith::difference(
                            arith::product(x[i], cosines[d / 2]),
                            arith::product(x[i + 1], sines[d / 2]),
                        )
                    } else {
                        arith::sum(
                            arith::product(x[i - 1], sines[d / 2]),
                            arith::product(x[i], cosines[d / 2]),
                        )
                    }
                },
        )
    }

    /// The cosines of all pairs.
    pub open spec fn cosines(self, f: Functions) -> Seq<u32> {
        Seq::new((self.n_rot / 2) as nat, |k: int| self.cosine(k, f))
    }

    /// The sines of all pairs.
    pub open spec fn sines(self, f: Functions) -> Seq<u32> {
        Seq::new((self.n_rot / 2) as nat, |k: int| self.sine(k, f))
    }

    /// The heads after the rotation.
    pub open spec fn rotated(self, x: Seq<u32>, f: Functions) -> Seq<u32> {
        self.turned(x, self.cosines(f), self.sines(f))
    }
}

/// The higher of two numbers.
fn fmax(a: u32, b: u32) -> (r: u32)
    ensures
        r == higher(a, b),
{
    if nan(a) {
        b
    } else if flt(a, b) {
        b
    } else {
        a
    }
}

/// The lower of two numbers.
fn fmin(a: u32, b: u32) -> (r: u32)
    ensures
        r == lower(a, b),
{
    if nan(a) {
        b
    } else if flt(b, a) {
        b
    } else {
        a
    }
}

/// The place of the pair that makes `beta` turns in the context of the
/// training.
fn yarn_corr_dim<L: Fn(u32) -> u32>(p: &RoPEParams, beta: u32, ln: &L) -> (r: u32)
    requires
        function::total(ln),
    ensures
        forall|f: Functions|
            #![trigger function::computes(ln, f.ln)]
            function::computes(ln, f.ln) ==> r == p.turning_place(beta, f),
{
    let turns: u32 = fdiv(from_u64(p.n_ctx_orig), fmul(fmul(beta, TWO), PI));
    fdiv(
        fmul(from_u64(p.n_rot as u64), function::call(ln, turns)),
        fmul(TWO, function::call(ln, p.freq_base)),
    )
}

/// Where the ramp starts and ends.
fn yarn_corr_dims<L: Fn(u32) -> u32>(p: &RoPEParams, ln: &L) -> (r: (u32, u32))
    requires
        function::total(ln),
    ensures
        forall|f: Functions|
            #![trigger function::computes(ln, f.ln)]
            function::computes(ln, f.ln) ==> r.0 == p.ramp_start(f) && r.1 == p.ramp_end(f),
{
    let start: u32 = integer::floor(yarn_corr_dim(p, p.beta_fast, ln));
    let end: u32 = integer::ceil(yarn_corr_dim(p, p.beta_slow, ln));
    (fmax(start, 0), fmin(end, from_i64(p.n_rot as i64 - 1)))
}

/// How much of the plain angle pair `k` has.
fn yarn_ramp(start: u32, end: u32, k: u32) -> (r: u32)
    ensures
        r == arith::difference(
            ONE,
            unit(
                arith::quotient(
                    arith::difference(arith::of_integer(k as int), start),
                    higher(arith::difference(end, start), THOUSANDTH),
                ),
            ),
        ),
{
    let y: u32 = fdiv(fsub(from_u64(k as u64), start), fmax(fsub(end, start), THOUSANDTH));
    let u: u32 = if flt(y, 0) {
        0
    } else if flt(ONE, y) {
        ONE
    } else {
        y
    };
    fsub(ONE, u)
}

/// The cosines and sines of the pairs.
fn coefficients<
    P: Fn(u32, u32) -> u32,
    L: Fn(u32) -> u32,
    C: Fn(u32) -> u32,
    S: Fn(u32) -> u32,
>(p: &RoPEParams, powf: &P, ln: &L, cos: &C, sin: &S) -> (r: (Vec<u32>, Vec<u32>))
    requires
        forall|a: u32, b: u32| #[trigger] call_requires(powf, (a, b)),
        function::total(ln),
        function::total(cos),
        function::total(sin),
    ensures
        r.0@.len() == p.n_rot / 2,
        r.1@.len() == p.n_rot / 2,
        forall|f: Functions| #[trigger]
            computed(powf, ln, cos, sin, f) ==> r.0@ == p.cosines(f) && r.1@ == p.sines(f),
{
    let falloff: u32 = powf(p.freq_base, fdiv(MINUS_TWO, from_u64(p.n_rot as u64)));
    let mixes: bool = !feq(p.ext_factor, 0);
    let (start, end): (u32, u32) = if mixes {
        yarn_corr_dims(p, ln)
    } else {
        (0, 0)
    };
    let gain: u32 = if mixes {
        let l: u32 = function::call(ln, fdiv(ONE, p.freq_scale));
        fmul(p.attn_factor, fadd(ONE, fmul(TENTH, l)))
    } else {
        p.attn_factor
    };
    let sign: u32 = if p.inverse {
        fneg(ONE)
    } else {
        ONE
    };
    let n: u32 = p.n_rot / 2;
    let mut plain: u32 = from_u64(p.pos as u64);
    let mut cosines: Vec<u32> = Vec::new();
    let mut sines: Vec<u32> = Vec::new();
    assert forall|f: Functions| #[trigger] computed(powf, ln, cos, sin, f) implies falloff
        == p.falloff(f) && gain == p.gain(f) && (mixes ==> start == p.ramp_start(f) && end
        == p.ramp_end(f)) by {
        assert(call_ensures(
            powf,
            (
                p.freq_base,
                arith::quotient(MINUS_TWO, arith::of_integer(p.n_rot as int)),
            ),
            falloff,
        ));
        assert(function::computes(ln, f.ln));
    }
    for k in 0..n
        invariant
            function::total(cos),
            function::total(sin),
            n == p.n_rot / 2,
            mixes == p.mixes(),
            sign == if p.inverse {
                arith::negated(ONE)
            } else {
                ONE
            },
            cosines@.len() == k,
            sines@.len() == k,
            forall|f: Functions| #[trigger]
                computed(powf, ln, cos, sin, f) ==> falloff == p.falloff(f) && gain == p.gain(f)
                    && (mixes ==> start == p.ramp_start(f) && end == p.ramp_end(f)),
            forall|f: Functions| #[trigger]
                computed(powf, ln, cos, sin, f) ==> plain == p.plain(k as nat, f),
            forall|f: Functions| #[trigger]
                computed(powf, ln, cos, sin, f) ==> forall|i: int|
                    0 <= i < k ==> #[trigger] cosines@[i] == p.cosine(i, f),
            forall|f: Functions| #[trigger]
                computed(powf, ln, cos, sin, f) ==> forall|i: int|
                    0 <= i < k ==> #[trigger] sines@[i] == p.sine(i, f),
    {
        let scaled: u32 = fmul(p.freq_scale, plain);
        let theta: u32 = if mixes {
            let mix: u32 = fmul(yarn_ramp(start, end, k), p.ext_factor);
            fadd(fmul(scaled, fsub(ONE, mix)), fmul(plain, mix))
        } else {
            scaled
        };
        let c: u32 = fmul(function::call(cos, theta), gain);
        let s: u32 = fmul(fmul(sign, function::call(sin, theta)), gain);
        assert forall|f: Functions| #[trigger] computed(powf, ln, cos, sin, f) implies c
            == p.cosine(k as int, f) && s == p.sine(k as int, f) by {
            assert(function::computes(cos, f.cos));
            assert(function::computes(sin, f.sin));
            assert(theta == p.angle(k as int, f));
        }
        cosines.push(c);
        sines.push(s);
        plain = fmul(plain, falloff);
    }
    assert forall|f: Functions| #[trigger] computed(powf, ln, cos, sin, f) implies cosines@
        == p.cosines(f) && sines@ == p.sines(f) by {
        assert(cosines@ =~= p.cosines(f));
        assert(sines@ =~= p.sines(f));
    }
    (cosines, sines)
}

/// Whether there are as many numbers as the heads have.
pub open spec fn has_heads(x: Seq<u32>, p: RoPEParams) -> bool {
    x.len() == p.n_head * p.head_dim
}

/// Turns the pairs of every head by given cosines and sines.
pub fn rotate_heads(x: &mut [u32], p: &RoPEParams, cosines: &[u32], sines: &[u32])
    requires
        has_heads(old(x)@, *p),
        p.n_rot <= p.head_dim,
        p.n_rot % 2 == 0,
        cosines@.len() == p.n_rot / 2,
        sines@.len() == p.n_rot / 2,
    ensures
        final(x)@ == p.turned(old(x)@, cosines@, sines@),
{
    let n: usize = x.len();
    let head: usize = p.head_dim as usize;
    let still: usize = head - p.n_rot as usize;
    let ghost want = p.turned(x@, cosines@, sines@);
    let mut r: Vec<u32> = Vec::new();
    for i in 0..n
        invariant
            n == x@.len(),
            has_heads(x@, *p),
            p.n_rot <= p.head_dim,
            p.n_rot % 2 == 0,
            head == p.head_dim,
            still == head - p.n_rot,
            cosines@.len() == p.n_rot / 2,
            sines@.len() == p.n_rot / 2,
            want == p.turned(x@, cosines@, sines@),
            r@ =~= want.take(i as int),
    {
        proof {
            lemma_pair_inside(i as int, p.n_head as int, head as int, still as int);
        }
        let at: usize = i % head;
        if at < still {
            r.push(x[i]);
        } else {
            let d: usize = at - still;
            let c: u32 = cosines[d / 2];
            let s: u32 = sines[d / 2];
            if d % 2 == 0 {
                r.push(fsub(fmul(x[i], c), fmul(x[i + 1], s)));
            } else {
                r.push(fadd(fmul(x[i - 1], s), fmul(x[i], c)));
            }
        }
    }
    assert(r@ =~= want);
    overwrite(x, r.as_slice());
}

/// The partner of a rotated number lies in the same head.
proof fn lemma_pair_inside(i: int, heads: int, head: int, still: int)
    requires
        0 <= i < heads * head,
        0 <= still <= head,
        (head - still) % 2 == 0,
        heads >= 0,
        head >= 0,
    ensures
        head > 0,
        0 <= i % head < head,
        i % head >= still && (i % head - still) % 2 == 0 ==> i + 1 < heads * head,
        i % head >= still && (i % head - still) % 2 != 0 ==> i >= 1,
{
    assert(head > 0) by (nonlinear_arith)
        requires
            0 < heads * head,
            head >= 0,
            heads >= 0,
    ;
    vstd::arithmetic::div_mod::lemma_fundamental_div_mod(i, head);
    let q = i / head;
    let d = i % head;
    assert(q < heads) by (nonlinear_arith)
        requires
            head * q <= i,
            i < heads * head,
            head > 0,
    ;
    assert((q + 1) * head <= heads * head) by (nonlinear_arith)
        requires
            q + 1 <= heads,
            head > 0,
    ;
    assert((q + 1) * head == head * q + head) by (nonlinear_arith);
}

/// Rotates the last `n_rot` numbers of each head in place. The closures are the
/// power, the natural logarithm, the cosine and the sine.
pub fn rope_yarn_tail<
    P: Fn(u32, u32) -> u32,
    L: Fn(u32) -> u32,
    C: Fn(u32) -> u32,
    S: Fn(u32) -> u32,
>(
    x: &mut [u32],
    params: &RoPEParams,
    tier: SimdTier,
    powf: &P,
    ln: &L,
    cos: &C,
    sin: &S,
) -> (res: Result<(), Error>)
    requires
        forall|a: u32, b: u32| #[trigger] call_requires(powf, (a, b)),
        function::total(ln),
        function::total(cos),
        function::total(sin),
    ensures
        final(x)@.len() == old(x)@.len(),
        !has_heads(old(x)@, *params) ==> {
            &&& final(x)@ == old(x)@
            &&& res == Err::<(), Error>(
                Error::ShapeMismatch("rope_yarn_tail: x must be n_head*head_dim"),
            )
        },
        has_heads(old(x)@, *params) && params.n_rot > params.head_dim ==> {
            &&& final(x)@ == old(x)@
            &&& res == Err::<(), Error>(
                Error::ShapeMismatch("rope_yarn_tail: n_rot must not exceed head_dim"),
            )
        },
        has_heads(old(x)@, *params) && params.n_rot <= params.head_dim && params.n_rot % 2 != 0 ==> {
            &&& final(x)@ == old(x)@
            &&& res == Err::<(), Error>(
                Error::ShapeMismatch("rope_yarn_tail: n_rot must be even (rotates 2-lane pairs)"),
            )
        },
        has_heads(old(x)@, *params) && params.n_rot <= params.head_dim && params.n_rot % 2 == 0
            && params.mixes() && !(order::less(0, params.freq_scale) && float::is_finite(
            params.freq_scale,
        )) ==> {
            &&& final(x)@ == old(x)@
            &&& res == Err::<(), Error>(
                Error::NonFiniteInput(
                    "rope_yarn_tail: freq_scale must be positive and finite when ext_factor != 0",
                ),
            )
        },
        has_heads(old(x)@, *params) && params.n_rot <= params.head_dim && params.n_rot % 2 == 0 && (
        !params.mixes() || (order::less(0, params.freq_scale) && float::is_finite(
            params.freq_scale,
        ))) ==> {
            &&& res is Ok
            &&& forall|f: Functions| #[trigger]
                computed(powf, ln, cos, sin, f) ==> final(x)@ == params.rotated(old(x)@, f)
            &&& forall|i: int|
                0 <= i < old(x)@.len() && i % (params.head_dim as int) < params.still()
                    ==> #[trigger] final(x)@[i] == old(x)@[i]
        },
{
    assert(params.n_head * params.head_dim <= 0xFFFF_FFFF * 0xFFFF_FFFF) by (nonlinear_arith)
        requires
            0 <= params.n_head <= 0xFFFF_FFFF,
            0 <= params.head_dim <= 0xFFFF_FFFF,
    ;
    let n: u64 = params.n_head as u64 * params.head_dim as u64;
    if x.len() as u64 != n {
        return Err(Error::ShapeMismatch("rope_yarn_tail: x must be n_head*head_dim"));
    }
    if params.n_rot > params.head_dim {
        return Err(Error::ShapeMismatch("rope_yarn_tail: n_rot must not exceed head_dim"));
    }
    if params.n_rot % 2 != 0 {
        return Err(
            Error::ShapeMismatch("rope_yarn_tail: n_rot must be even (rotates 2-lane pairs)"),
        );
    }
    if !feq(params.ext_factor, 0) && !(flt(0, params.freq_scale) && finite(params.freq_scale)) {
        return Err(
            Error::NonFiniteInput(
                "rope_yarn_tail: freq_scale must be positive and finite when ext_factor != 0",
            ),
        );
    }
    let (cosines, sines) = coefficients(params, powf, ln, cos, sin);
    rotate_heads(x, params, cosines.as_slice(), sines.as_slice());
    Ok(())
}

/// Rotation leaves the first numbers of every head as they are.
pub proof fn law_still_numbers_stay(p: RoPEParams, x: Seq<u32>, f: Functions, i: int)
    requires
        has_heads(x, p),
        0 <= i < x.len(),
        i % (p.head_dim as int) < p.still(),
    ensures
        p.rotated(x, f)[i] == x[i],
{
}

/// The first position turns nothing: with plain angles and no gain, every
/// finite number comes out with the value it had.
pub proof fn law_first_position_stays(p: RoPEParams, x: Seq<u32>, f: Functions, i: int)
    requires
        has_heads(x, p),
        p.n_rot <= p.head_dim,
        p.n_rot % 2 == 0,
        p.pos == 0,
        !p.mixes(),
        p.attn_factor == ONE,
        float::is_finite(p.freq_scale),
        float::is_finite(p.falloff(f)),
        forall|zero: u32| float::is_zero(zero) ==> #[trigger] (f.cos)(zero) == ONE,
        forall|zero: u32| float::is_zero(zero) ==> float::is_zero(#[trigger] (f.sin)(zero)),
        forall|j: int| 0 <= j < x.len() ==> float::is_finite(#[trigger] x[j]),
        0 <= i < x.len(),
    ensures
        order::same(p.rotated(x, f)[i], x[i]),
{
    let h = p.head_dim as int;
    let d = i % h - p.still();
    if d >= 0 {
        lemma_first_coefficients(p, f, d / 2);
        lemma_neighbours(p, x.len(), i);
        order::law_times_one(x[i]);
        if d % 2 == 0 {
            let rest = arith::product(x[i + 1], p.sine(d / 2, f));
            order::law_times_zero(x[i + 1], p.sine(d / 2, f));
            order::law_adding_zero(x[i], arith::negated(rest));
        } else {
            let rest = arith::product(x[i - 1], p.sine(d / 2, f));
            order::law_times_zero(x[i - 1], p.sine(d / 2, f));
            order::law_order_of_two(rest, x[i]);
            order::law_adding_zero(x[i], rest);
        }
    }
}

/// At the first position the cosine of every pair is one and the sine zero.
proof fn lemma_first_coefficients(p: RoPEParams, f: Functions, k: int)
    requires
        p.pos == 0,
        !p.mixes(),
        p.attn_factor == ONE,
        float::is_finite(p.freq_scale),
        float::is_finite(p.falloff(f)),
        forall|zero: u32| float::is_zero(zero) ==> #[trigger] (f.cos)(zero) == ONE,
        forall|zero: u32| float::is_zero(zero) ==> float::is_zero(#[trigger] (f.sin)(zero)),
        k >= 0,
    ensures
        p.cosine(k, f) == ONE,
        float::is_zero(p.sine(k, f)),
{
    lemma_first_angle(p, f, k as nat);
    let angle = p.angle(k, f);
    order::law_times_zero(p.freq_scale, p.plain(k as nat, f));
    order::law_times_one(ONE);
    let sign = if p.inverse {
        arith::negated(ONE)
    } else {
        ONE
    };
    let sine = arith::product(sign, (f.sin)(angle));
    order::law_times_zero(sign, (f.sin)(angle));
    order::law_times_one(sine);
}

/// At the first position every plain angle is zero.
proof fn lemma_first_angle(p: RoPEParams, f: Functions, k: nat)
    requires
        p.pos == 0,
        float::is_finite(p.falloff(f)),
    ensures
        float::is_zero(p.plain(k, f)),
    decreases k,
{
    if k == 0 {
        arith::lemma_units_zero(0);
        order::law_rounding_keeps_numbers(0, 1);
        assert(0 * vstd::arithmetic::power2::pow2(149) == 0) by (nonlinear_arith);
    } else {
        let before = p.plain((k - 1) as nat, f);
        lemma_first_angle(p, f, (k - 1) as nat);
        order::law_times_zero(p.falloff(f), before);
        order::law_order_of_two(p.falloff(f), before);
    }
}

/// The other number of a pair stands in the same head.
proof fn lemma_neighbours(p: RoPEParams, len: nat, i: int)
    requires
        len == p.n_head * p.head_dim,
        p.n_rot <= p.head_dim,
        p.n_rot % 2 == 0,
        0 <= i < len,
        i % (p.head_dim as int) >= p.still(),
    ensures
        (i % (p.head_dim as int) - p.still()) % 2 == 0 ==> i + 1 < len,
        (i % (p.head_dim as int) - p.still()) % 2 == 1 ==> i >= 1,
{
    let h = p.head_dim as int;
    let n = p.n_head as int;
    assert(h > 0) by (nonlinear_arith)
        requires
            h >= 0,
            0 < n * h,
    ;
    vstd::arithmetic::div_mod::lemma_fundamental_div_mod(i, h);
    let q = i / h;
    let r = i % h;
    if (r - p.still()) % 2 == 0 {
        assert(r + 1 < h);
        assert(q < n) by (nonlinear_arith)
            requires
                h * q + r < n * h,
                r >= 0,
                h > 0,
        ;
        assert(h * q + h <= n * h) by (nonlinear_arith)
            requires
                q + 1 <= n,
                h > 0,
        ;
    }
    assert(h * q >= 0) by (nonlinear_arith)
        requires
            h * q + r >= 0,
            r < h,
            h > 0,
    ;
}

/// Rotating back takes the same cosines, and the sines with the other sign.
pub proof fn law_inverse_turns_the_other_way(p: RoPEParams, f: Functions, k: int)
    requires
        !float::is_nan(p.sine(k, f)),
    ensures
        ({
            let back = RoPEParams { inverse: !p.inverse, ..p };
            &&& back.cosine(k, f) == p.cosine(k, f)
            &&& back.sine(k, f) == arith::negated(p.sine(k, f))
        }),
{
    let back = RoPEParams { inverse: !p.inverse, ..p };
    lemma_same_angle(p, back, f, k as nat);
    lemma_sign_of_sine((f.sin)(p.angle(k, f)), p.gain(f));
}

/// The sign that a sine is multiplied by is the sign of the result.
proof fn lemma_sign_of_sine(s: u32, gain: u32)
    ensures
        ({
            let plain = arith::product(arith::product(ONE, s), gain);
            let back = arith::product(arith::product(arith::negated(ONE), s), gain);
            ||| float::is_nan(plain) && float::is_nan(back)
            ||| back == arith::negated(plain) && plain == arith::negated(back)
        }),
{
    let one = arith::product(ONE, s);
    order::law_sign_of_product(ONE, s);
    if float::is_nan(one) {
        assert(float::is_nan(arith::product(one, gain)));
    } else {
        order::law_sign_of_product(one, gain);
    }
}

/// Whether to rotate back does not matter to the plain angles.
proof fn lemma_same_angle(p: RoPEParams, q: RoPEParams, f: Functions, k: nat)
    requires
        q == (RoPEParams { inverse: q.inverse, ..p }),
    ensures
        p.plain(k, f) == q.plain(k, f),
    decreases k,
{
    assert(p.falloff(f) == q.falloff(f));
    if k > 0 {
        lemma_same_angle(p, q, f, (k - 1) as nat);
    }
}

/// Every head is rotated by the same angles: two heads with the same numbers
/// come out the same.
pub proof fn law_heads_alike(p: RoPEParams, x: Seq<u32>, f: Functions, a: int, b: int, d: int)
    requires
        has_heads(x, p),
        p.n_rot <= p.head_dim,
        p.n_rot % 2 == 0,
        0 <= a < p.n_head,
        0 <= b < p.n_head,
        forall|e: int|
            0 <= e < p.head_dim ==> #[trigger] x[a * p.head_dim + e] == x[b * p.head_dim + e],
        0 <= d < p.head_dim,
    ensures
        p.rotated(x, f)[a * p.head_dim + d] == p.rotated(x, f)[b * p.head_dim + d],
{
    let at = a * p.head_dim;
    let bt = b * p.head_dim;
    lemma_head_place(p, a, d);
    lemma_head_place(p, b, d);
    assert(x[at + d] == x[bt + d]);
    if d + 1 < p.head_dim {
        assert(x[at + (d + 1)] == x[bt + (d + 1)]);
    }
    if d > 0 {
        assert(x[at + (d - 1)] == x[bt + (d - 1)]);
    }
    lemma_same_turn(p, x, p.cosines(f), p.sines(f), at, bt, d);
}

/// Two numbers at the same place of a head, with the same neighbours, come out
/// the same.
proof fn lemma_same_turn(
    p: RoPEParams,
    x: Seq<u32>,
    cosines: Seq<u32>,
    sines: Seq<u32>,
    at: int,
    bt: int,
    d: int,
)
    requires
        p.n_rot <= p.head_dim,
        p.n_rot % 2 == 0,
        0 <= d < p.head_dim,
        0 <= at + d < x.len(),
        0 <= bt + d < x.len(),
        (at + d) % (p.head_dim as int) == d,
        (bt + d) % (p.head_dim as int) == d,
        x[at + d] == x[bt + d],
        d + 1 < p.head_dim ==> x[at + d + 1] == x[bt + d + 1],
        d > 0 ==> x[at + d - 1] == x[bt + d - 1],
    ensures
        p.turned(x, cosines, sines)[at + d] == p.turned(x, cosines, sines)[bt + d],
{
    let e = d - p.still();
    if e >= 0 && e % 2 == 0 {
        assert(d + 1 < p.head_dim);
    }
}

proof fn lemma_head_place(p: RoPEParams, a: int, d: int)
    requires
        0 <= a < p.n_head,
        0 <= d < p.head_dim,
    ensures
        0 <= a * p.head_dim + d < p.n_head * p.head_dim,
        (a * p.head_dim + d) % (p.head_dim as int) == d,
{
    let h = p.head_dim as int;
    assert((a + 1) * h <= p.n_head * h) by (nonlinear_arith)
        requires
            a + 1 <= p.n_head,
            h >= 0,
    ;
    assert((a + 1) * h == a * h + h) by (nonlinear_arith);
    assert(a * h >= 0) by (nonlinear_arith)
        requires
            a >= 0,
            h >= 0,
    ;
    vstd::arithmetic::div_mod::lemma_fundamental_div_mod_converse(a * h + d, h, a, d);
}

} // verus!
