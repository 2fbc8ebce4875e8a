//! Powers of two and colours.

use std::ops::Add;
use vstd::arithmetic::power2::{
    lemma2_to64, lemma_pow2_pos, lemma_pow2_strictly_increases, lemma_pow2_unfold, pow2,
};
use vstd::prelude::*;
use vstd::std_specs::ops::AddSpecImpl;

verus! {

/// `n` is a power of two.
pub open spec fn is_pow2(n: int) -> bool {
    exists|e: nat| n == #[trigger] pow2(e)
}

/// The largest argument whose next power of two still fits in a `usize`.
pub open spec fn max_pow2_arg() -> int {
    usize::MAX / 2 + 1
}

/// `p` is the least power of two that is not below `n`.
pub open spec fn is_ceil_pow2(n: int, p: int) -> bool {
    &&& is_pow2(p)
    &&& n <= p
    &&& forall|e: nat| n <= #[trigger] pow2(e) ==> p <= pow2(e)
}

/// The least power of two that is not below `n`, for `n` above zero.
pub open spec fn next_pow2(n: int) -> int {
    choose|p: int| is_ceil_pow2(n, p)
}

/// There is one least power of two that is not below `n`.
pub proof fn lemma_next_pow2_unique(n: int, p: int)
    requires
        is_ceil_pow2(n, p),
    ensures
        p == next_pow2(n),
{
    let q = next_pow2(n);
    assert(is_ceil_pow2(n, q));
    let e = choose|e: nat| p == #[trigger] pow2(e);
    let f = choose|f: nat| q == #[trigger] pow2(f);
    assert(n <= pow2(e) && n <= pow2(f));
}

/// Powers of two are ordered as their exponents are.
pub proof fn lemma_pow2_monotone(a: nat, b: nat)
    requires
        a <= b,
    ensures
        pow2(a) <= pow2(b),
{
    if a < b {
        lemma_pow2_strictly_increases(a, b);
    }
}

/// Between a power of two and its double lies no other power of two.
pub proof fn lemma_pow2_gap(e: nat, f: nat)
    requires
        pow2(e) < pow2(f),
    ensures
        2 * pow2(e) <= pow2(f),
{
    if f <= e {
        lemma_pow2_monotone(f, e);
    } else {
        lemma_pow2_monotone(e + 1, f);
        lemma_pow2_unfold(e + 1);
    }
}

/// The largest argument of `ceil_pow2` is itself a power of two.
pub proof fn lemma_limit_is_pow2()
    ensures
        is_pow2(max_pow2_arg()),
{
    lemma2_to64();
    if usize::BITS == 32 {
        assert(max_pow2_arg() == pow2(31));
    } else {
        assert(max_pow2_arg() == pow2(63)) by {
            lemma_pow2_unfold(64);
        }
    }
}

/// The least power of two that is not below `num`; zero for zero.
pub fn ceil_pow2(num: usize) -> (p: usize)
    requires
        num <= max_pow2_arg(),
    ensures
        num == 0 ==> p == 0,
        num > 0 ==> is_ceil_pow2(num as int, p as int) && p == next_pow2(num as int),
        num > 0 ==> p < 2 * num,
{
    if num == 0 {
        return 0;
    }
    let mut p: usize = 1;
    let ghost mut e: nat = 0;
    proof {
        lemma2_to64();
    }
    while p < num
        invariant
            0 < num <= max_pow2_arg(),
            p == pow2(e),
            1 <= p <= max_pow2_arg(),
            e > 0 ==> pow2((e - 1) as nat) < num,
        decreases max_pow2_arg() - p,
    {
        proof {
            lemma_pow2_unfold(e + 1);
        }
        p = p * 2;
        proof {
            e = e + 1;
            // p is a power of two below 2 * num, so it is at most the limit
            if p > max_pow2_arg() {
                lemma_limit_is_pow2();
                let k = choose|k: nat| max_pow2_arg() == #[trigger] pow2(k);
                lemma_pow2_gap((e - 1) as nat, k);
            }
        }
    }
    proof {
        if e > 0 {
            lemma_pow2_unfold(e);
        }
        assert forall|f: nat| num <= #[trigger] pow2(f) implies p <= pow2(f) by {
            if pow2(f) < p {
                lemma_pow2_gap(f, e);
                lemma_pow2_unfold(e);
                if e == 0 {
                    lemma_pow2_pos(f);
                }
            }
        }
        lemma_next_pow2_unique(num as int, p as int);
    }
    p
}

/// A colour of three eight-bit channels.
#[derive(Debug, Default, Copy, Clone, PartialEq)]
pub struct Color {
    pub r: u8,
    pub g: u8,
    pub b: u8,
}

impl Color {
    /// The colour with the given channels.
    pub fn new(r: u8, g: u8, b: u8) -> (c: Color)
        ensures
            c.r == r,
            c.g == g,
            c.b == b,
    {
        Color { r, g, b }
    }
}

impl AddSpecImpl for Color {
    open spec fn obeys_add_spec() -> bool {
        true
    }

    /// Two colours can be added where no channel of the sum leaves the
    /// range of a byte.
    open spec fn add_req(self, rhs: Color) -> bool {
        self.r + rhs.r <= u8::MAX && self.g + rhs.g <= u8::MAX && self.b + rhs.b <= u8::MAX
    }

    open spec fn add_spec(self, rhs: Color) -> Color {
        Color {
            r: (self.r + rhs.r) as u8,
            g: (self.g + rhs.g) as u8,
            b: (self.b + rhs.b) as u8,
        }
    }
}

impl Add for Color {
    type Output = Color;

    /// The sum of two colours, channel by channel.
    fn add(self, rhs: Color) -> (sum: Color) {
        Color { r: self.r + rhs.r, g: self.g + rhs.g, b: self.b + rhs.b }
    }
}

} // verus!
