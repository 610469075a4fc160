//! Object layouts and the address arithmetic the slab geometry is built from.

use vstd::arithmetic::power2::is_pow2;
use vstd::prelude::*;

verus! {

/// Whether `m` is a multiple of `a`.
pub open spec fn multiple_of(m: int, a: int) -> bool {
    m % a == 0
}

/// The least multiple of `a` that is not below `x` (for `x >= 0`, `a > 0`).
pub open spec fn round_up_spec(x: int, a: int) -> int {
    x + (a - x % a) % a
}

/// The least power of two that is not below `x`.
pub open spec fn ceil_pow2(x: nat) -> nat
    decreases x,
{
    if x <= 1 {
        1
    } else {
        2 * ceil_pow2((x + 1) / 2)
    }
}

/// `round_up_spec(x, a)` is a multiple of `a`, is at least `x`, and is less
/// than `x + a`; any multiple of `a` that is at least `x` is at least as big.
pub proof fn lemma_round_up(x: int, a: int)
    requires
        0 <= x,
        0 < a,
    ensures
        round_up_spec(x, a) % a == 0,
        x <= round_up_spec(x, a) < x + a,
        x % a == 0 ==> round_up_spec(x, a) == x,
        forall|m: int| #[trigger] multiple_of(m, a) && m >= x ==> m >= round_up_spec(x, a),
{
    let r = x % a;
    let q = x / a;
    vstd::arithmetic::div_mod::lemma_fundamental_div_mod(x, a);
    assert(x == a * q + r);
    if r == 0 {
        vstd::arithmetic::div_mod::lemma_small_mod(0, a as nat);
        assert((a - r) % a == 0) by {
            vstd::arithmetic::div_mod::lemma_mod_self_0(a);
        }
        assert(round_up_spec(x, a) == x);
    } else {
        vstd::arithmetic::div_mod::lemma_small_mod((a - r) as nat, a as nat);
        assert(round_up_spec(x, a) == x + a - r);
        assert(x + a - r == a * (q + 1)) by (nonlinear_arith)
            requires
                x == a * q + r,
        ;
        vstd::arithmetic::div_mod::lemma_mod_multiples_basic(q + 1, a);
        assert((a * (q + 1)) % a == 0) by {
            vstd::arithmetic::mul::lemma_mul_is_commutative(a, q + 1);
        }
    }
    assert forall|m: int| #[trigger] multiple_of(m, a) && m >= x implies m >= round_up_spec(
        x,
        a,
    ) by {
        if r != 0 {
            vstd::arithmetic::div_mod::lemma_fundamental_div_mod(m, a);
            let k = m / a;
            assert(m == a * k);
            assert(k > q) by (nonlinear_arith)
                requires
                    a * k >= a * q + r,
                    r > 0,
                    a > 0,
            ;
            assert(a * k >= a * (q + 1)) by (nonlinear_arith)
                requires
                    k >= q + 1,
                    a > 0,
            ;
            assert(a * (q + 1) == x + a - r) by (nonlinear_arith)
                requires
                    x == a * q + r,
            ;
        }
    }
}

/// The sum of two multiples of `a` is a multiple of `a`.
pub proof fn lemma_sum_of_multiples(x: int, y: int, a: int)
    requires
        a > 0,
        x % a == 0,
        y % a == 0,
    ensures
        (x + y) % a == 0,
{
    vstd::arithmetic::div_mod::lemma_fundamental_div_mod(x, a);
    vstd::arithmetic::div_mod::lemma_fundamental_div_mod(y, a);
    let q = x / a + y / a;
    assert(x + y == q * a) by (nonlinear_arith)
        requires
            x == a * (x / a),
            y == a * (y / a),
            q == x / a + y / a,
    ;
    vstd::arithmetic::div_mod::lemma_mod_multiples_basic(q, a);
}

/// A positive multiple of `a` is at least `a`.
pub proof fn lemma_multiple_at_least(m: int, a: int)
    requires
        a > 0,
        m > 0,
        m % a == 0,
    ensures
        m >= a,
{
    if m < a {
        vstd::arithmetic::div_mod::lemma_small_mod(m as nat, a as nat);
    }
}

/// One step of the recursive definition of `is_pow2`.
pub proof fn lemma_pow2_step(n: int)
    ensures
        is_pow2(n) <==> n == 1 || (n > 1 && n % 2 == 0 && is_pow2(n / 2)),
{
    reveal(is_pow2);
}

/// Of two distinct powers of two, the larger is at least twice the smaller.
pub proof fn lemma_pow2_gap(a: int, b: int)
    requires
        is_pow2(a),
        is_pow2(b),
        a < b,
    ensures
        2 * a <= b,
    decreases b,
{
    lemma_pow2_step(a);
    lemma_pow2_step(b);
    if a == 1 {
    } else {
        lemma_pow2_gap(a / 2, b / 2);
    }
}

/// A power of two is positive.
pub proof fn lemma_pow2_positive(a: int)
    requires
        is_pow2(a),
    ensures
        a >= 1,
    decreases a,
{
    lemma_pow2_step(a);
}

/// Twice a power of two is a power of two.
pub proof fn lemma_pow2_double(a: int)
    requires
        is_pow2(a),
    ensures
        is_pow2(2 * a),
{
    lemma_pow2_positive(a);
    lemma_pow2_step(2 * a);
}

/// A multiple of a power of two is a multiple of every smaller power of two.
pub proof fn lemma_pow2_divides(a: int, b: int, x: int)
    requires
        is_pow2(a),
        is_pow2(b),
        a <= b,
        x % b == 0,
    ensures
        x % a == 0,
    decreases b,
{
    lemma_pow2_positive(a);
    if a == b {
    } else {
        lemma_pow2_step(b);
        lemma_pow2_gap(a, b);
        let h = b / 2;
        // x = b * k = h * (2k), hence x % h == 0
        vstd::arithmetic::div_mod::lemma_fundamental_div_mod(x, b);
        let k = x / b;
        assert(x == h * (2 * k)) by (nonlinear_arith)
            requires
                x == b * k,
                b == 2 * h,
        ;
        vstd::arithmetic::div_mod::lemma_mod_multiples_basic(2 * k, h);
        assert(x % h == 0) by {
            vstd::arithmetic::mul::lemma_mul_is_commutative(h, 2 * k);
        }
        lemma_pow2_divides(a, h, x);
    }
}

/// `ceil_pow2(x)` is a power of two, is at least `x`, and no power of two
/// that is at least `x` is smaller.
pub proof fn lemma_ceil_pow2(x: nat)
    ensures
        is_pow2(ceil_pow2(x) as int),
        ceil_pow2(x) >= x,
        x >= 1 ==> ceil_pow2(x) < 2 * x,
        forall|p: int| is_pow2(p) && p >= x ==> p >= ceil_pow2(x),
    decreases x,
{
    if x <= 1 {
        lemma_pow2_step(1);
        assert forall|p: int| is_pow2(p) && p >= x implies p >= ceil_pow2(x) by {
            lemma_pow2_positive(p);
        }
    } else {
        let h = (x + 1) / 2;
        lemma_ceil_pow2(h as nat);
        lemma_pow2_double(ceil_pow2(h as nat) as int);
        assert forall|p: int| is_pow2(p) && p >= x implies p >= ceil_pow2(x) by {
            lemma_pow2_step(p);
            assert(p / 2 >= h);
        }
    }
}

/// Whether `x` is a power of two.
pub fn is_power_of_two(x: usize) -> (r: bool)
    ensures
        r == is_pow2(x as int),
{
    if x == 0 {
        proof {
            lemma_pow2_step(0);
        }
        return false;
    }
    let mut y: usize = x;
    while y % 2 == 0
        invariant
            y > 0,
            is_pow2(y as int) == is_pow2(x as int),
        decreases y,
    {
        proof {
            lemma_pow2_step(y as int);
        }
        y = y / 2;
    }
    proof {
        lemma_pow2_step(y as int);
    }
    y == 1
}

/// Rounds `x` up to the next multiple of `a`; `None` when that multiple does
/// not fit in a `usize`.
pub fn round_up(x: usize, a: usize) -> (r: Option<usize>)
    requires
        a > 0,
    ensures
        r.is_some() <==> round_up_spec(x as int, a as int) <= usize::MAX,
        r.is_some() ==> r.unwrap() == round_up_spec(x as int, a as int),
{
    let rem: usize = x % a;
    proof {
        lemma_round_up(x as int, a as int);
    }
    if rem == 0 {
        Some(x)
    } else {
        proof {
            vstd::arithmetic::div_mod::lemma_small_mod((a - rem) as nat, a as nat);
        }
        x.checked_add(a - rem)
    }
}

/// The least power of two that is at least `x`; `None` when it does not fit
/// in a `usize`.
pub fn next_power_of_two(x: usize) -> (r: Option<usize>)
    ensures
        r.is_some() <==> ceil_pow2(x as nat) <= usize::MAX,
        r.is_some() ==> r.unwrap() == ceil_pow2(x as nat),
{
    let mut s: usize = 1;
    proof {
        lemma_pow2_step(1);
    }
    while s < x
        invariant
            s >= 1,
            is_pow2(s as int),
            s == 1 || s / 2 < x,
        decreases
                (if s < x {
                    x - s
                } else {
                    0
                }),
    {
        if s > usize::MAX / 2 {
            proof {
                lemma_ceil_pow2(x as nat);
                let c = ceil_pow2(x as nat) as int;
                // c is a power of two above s, hence at least 2 * s
                lemma_pow2_gap(s as int, c);
            }
            return None;
        }
        proof {
            lemma_pow2_double(s as int);
        }
        s = s * 2;
    }
    proof {
        lemma_ceil_pow2(x as nat);
        let c = ceil_pow2(x as nat) as int;
        if c < s {
            lemma_pow2_gap(c, s as int);
        }
    }
    Some(s)
}

/// The size and alignment of the objects an allocator hands out.
#[derive(Clone, Copy, Debug, PartialEq, Eq, Structural)]
pub struct Layout {
    size: usize,
    align: usize,
}

impl Layout {
    /// The invariant of every layout: a power-of-two alignment that divides a
    /// non-zero size.
    pub open spec fn valid(size: int, align: int) -> bool {
        &&& is_pow2(align)
        &&& align <= size
        &&& size % align == 0
    }

    pub closed spec fn spec_size(&self) -> usize {
        self.size
    }

    pub closed spec fn spec_align(&self) -> usize {
        self.align
    }

    pub open spec fn wf(&self) -> bool {
        Self::valid(self.spec_size() as int, self.spec_align() as int)
    }

    /// Builds a layout, or `None` when `align` is not a power of two, exceeds
    /// `size`, or does not divide it.
    pub fn from_size_align(size: usize, align: usize) -> (r: Option<Layout>)
        ensures
            r.is_some() <==> Self::valid(size as int, align as int),
            r.is_some() ==> r.unwrap().wf() && r.unwrap().spec_size() == size
                && r.unwrap().spec_align() == align,
    {
        if !is_power_of_two(align) {
            return None;
        }
        proof {
            lemma_pow2_positive(align as int);
        }
        if align <= size && size % align == 0 {
            Some(Layout { size, align })
        } else {
            None
        }
    }

    #[verifier::when_used_as_spec(spec_size)]
    pub fn size(&self) -> (s: usize)
        ensures
            s == self.spec_size(),
    {
        self.size
    }

    #[verifier::when_used_as_spec(spec_align)]
    pub fn align(&self) -> (a: usize)
        ensures
            a == self.spec_align(),
    {
        self.align
    }

    /// Raises the alignment to `align` if that is stricter than the current
    /// one. The size is kept, so the caller must know that `align` divides it.
    pub fn align_to(&self, align: usize) -> (r: Layout)
        requires
            self.wf(),
            Self::valid(self.size() as int, align as int),
        ensures
            r.wf(),
            r.size() == self.size(),
            r.align() == if align > self.align() { align } else { self.align() },
    {
        if align > self.align {
            Layout { size: self.size, align }
        } else {
            *self
        }
    }
}

/// The size and alignment that result from raising `layout`'s alignment to
/// at least `min_align`, with the size padded to a multiple of the new
/// alignment.
pub open spec fn satisfy_min_align_spec(layout: Layout, min_align: usize) -> (int, int) {
    let align = if min_align > layout.align() {
        min_align
    } else {
        layout.align()
    };
    (round_up_spec(layout.size() as int, align as int), align as int)
}

impl Layout {
    /// This layout with its alignment raised to at least `min_align`, where
    /// the result fits in a `usize`.
    pub closed spec fn with_min_align(self, min_align: usize) -> Layout {
        Layout {
            size: satisfy_min_align_spec(self, min_align).0 as usize,
            align: satisfy_min_align_spec(self, min_align).1 as usize,
        }
    }

    /// The size and alignment of `with_min_align`.
    pub proof fn lemma_with_min_align(self, min_align: usize)
        requires
            self.wf(),
            is_pow2(min_align as int),
            satisfy_min_align_spec(self, min_align).0 <= usize::MAX,
        ensures
            self.with_min_align(min_align).wf(),
            self.with_min_align(min_align).size() == satisfy_min_align_spec(self, min_align).0,
            self.with_min_align(min_align).align() == satisfy_min_align_spec(self, min_align).1,
            min_align <= self.align() ==> self.with_min_align(min_align) == self,
    {
        lemma_pow2_positive(self.align() as int);
        lemma_pow2_positive(min_align as int);
        let align = satisfy_min_align_spec(self, min_align).1;
        lemma_round_up(self.size() as int, align);
        lemma_multiple_at_least(satisfy_min_align_spec(self, min_align).0, align);
    }
}

/// Raises the alignment of `layout` to at least `min_align`, padding the size
/// to keep it a multiple of the alignment. `None` when the padded size does
/// not fit in a `usize`.
pub fn satisfy_min_align(layout: Layout, min_align: usize) -> (r: Option<Layout>)
    requires
        layout.wf(),
        is_pow2(min_align as int),
    ensures
        r.is_some() <==> satisfy_min_align_spec(layout, min_align).0 <= usize::MAX,
        r.is_some() ==> r.unwrap() == layout.with_min_align(min_align),
{
    proof {
        lemma_pow2_positive(layout.align() as int);
        lemma_pow2_positive(min_align as int);
        if satisfy_min_align_spec(layout, min_align).0 <= usize::MAX {
            layout.lemma_with_min_align(min_align);
        }
    }
    if min_align <= layout.align {
        proof {
            lemma_round_up(layout.size() as int, layout.align() as int);
        }
        Some(layout)
    } else {
        match round_up(layout.size, min_align) {
            Some(size) => Some(Layout { size, align: min_align }),
            None => None,
        }
    }
}

} // verus!
