//! Arithmetic of mipmap levels: the side lengths of each level, the number of
//! pixels that a run of levels occupies, and the length of a full pyramid.

use vstd::arithmetic::div_mod::{
    lemma_basic_div, lemma_div_denominator, lemma_div_is_ordered_by_denominator,
};
use vstd::arithmetic::logarithm::{lemma_log0, lemma_log_s, log};
use vstd::arithmetic::power2::{
    lemma2_to64, lemma_pow2_pos, lemma_pow2_strictly_increases, lemma_pow2_unfold, pow2,
};
use vstd::bits::lemma_u32_shr_is_div;
use vstd::prelude::*;

verus! {

/// Side length at mip level `level` of an image whose side at level 0 is
/// `dim`: the side halves with each level and never drops below one pixel.
pub open spec fn mip_dim(dim: nat, level: nat) -> nat {
    if dim / pow2(level) >= 1 {
        dim / pow2(level)
    } else {
        1
    }
}

/// Number of pixels in mip level `level` of a `width` x `height` image.
pub open spec fn level_area(width: nat, height: nat, level: nat) -> nat {
    mip_dim(width, level) * mip_dim(height, level)
}

/// Number of pixels in the mip levels `0 .. levels` of a `width` x `height`
/// image, taken together.
pub open spec fn levels_area(width: nat, height: nat, levels: nat) -> nat
    decreases levels,
{
    if levels == 0 {
        0
    } else {
        levels_area(width, height, (levels - 1) as nat) + level_area(
            width,
            height,
            (levels - 1) as nat,
        )
    }
}

/// Number of levels in the full pyramid of a `width` x `height` image:
/// one more than the floor of the binary logarithm of the longer side.
pub open spec fn full_levels(width: nat, height: nat) -> nat {
    let longer = if width >= height {
        width
    } else {
        height
    };
    (1 + log(2, longer as int)) as nat
}

/// The side of level 0 is the side itself, for every image that has pixels.
pub proof fn lemma_mip_dim_base(dim: nat)
    requires
        dim >= 1,
    ensures
        mip_dim(dim, 0) == dim,
{
    lemma2_to64();
}

/// Every level has at least one pixel along each side.
pub proof fn lemma_mip_dim_positive(dim: nat, level: nat)
    ensures
        mip_dim(dim, level) >= 1,
{
}

/// Going one level up halves the side, rounding down, but keeps one pixel.
pub proof fn lemma_mip_dim_step(dim: nat, level: nat)
    ensures
        mip_dim(dim, level + 1) == if mip_dim(dim, level) / 2 >= 1 {
            mip_dim(dim, level) / 2
        } else {
            1
        },
        dim / pow2(level + 1) == (dim / pow2(level)) / 2,
{
    lemma_pow2_pos(level);
    lemma_pow2_unfold(level + 1);
    lemma_div_denominator(dim as int, pow2(level) as int, 2);
    assert(pow2(level) * 2 == pow2(level + 1));
    assert(dim / pow2(level + 1) == (dim / pow2(level)) / 2);
}

/// The side never grows from one level to a later one.
pub proof fn lemma_mip_dim_monotone(dim: nat, lower: nat, upper: nat)
    requires
        lower <= upper,
    ensures
        mip_dim(dim, upper) <= mip_dim(dim, lower),
{
    lemma_pow2_pos(lower);
    lemma_pow2_pos(upper);
    if lower < upper {
        lemma_pow2_strictly_increases(lower, upper);
    }
    lemma_div_is_ordered_by_denominator(dim as int, pow2(lower) as int, pow2(upper) as int);
}

/// A side that fits in 32 bits has shrunk to one pixel by level 32.
pub proof fn lemma_mip_dim_saturates(dim: nat, level: nat)
    requires
        dim <= u32::MAX,
        level >= 32,
    ensures
        mip_dim(dim, level) == 1,
{
    lemma2_to64();
    if level > 32 {
        lemma_pow2_strictly_increases(32, level);
    }
    lemma_basic_div(dim as int, pow2(level) as int);
}

/// Every level has at least one pixel.
pub proof fn lemma_level_area_positive(width: nat, height: nat, level: nat)
    ensures
        level_area(width, height, level) >= 1,
{
    let w = mip_dim(width, level);
    let h = mip_dim(height, level);
    assert(w * h >= 1) by (nonlinear_arith)
        requires
            w >= 1,
            h >= 1,
    ;
}

/// A longer run of levels holds at least as many pixels as a shorter one, and
/// a level that the longer run holds beyond the shorter fits in the difference.
pub proof fn lemma_levels_area_monotone(width: nat, height: nat, fewer: nat, more: nat)
    requires
        fewer <= more,
    ensures
        levels_area(width, height, fewer) <= levels_area(width, height, more),
        fewer < more ==> levels_area(width, height, fewer) + level_area(width, height, fewer)
            <= levels_area(width, height, more),
    decreases more,
{
    if fewer < more {
        lemma_levels_area_monotone(width, height, fewer, (more - 1) as nat);
        lemma_level_area_positive(width, height, (more - 1) as nat);
    }
}

/// The full pyramid of an image whose sides fit in 32 bits has between 1 and
/// 32 levels.
pub proof fn lemma_full_levels_range(width: nat, height: nat)
    requires
        width <= u32::MAX,
        height <= u32::MAX,
    ensures
        1 <= full_levels(width, height) <= 32,
{
    let longer: int = if width >= height {
        width as int
    } else {
        height as int
    };
    vstd::arithmetic::logarithm::lemma_log_nonnegative(2, longer);
    vstd::arithmetic::logarithm::lemma_log_is_ordered(2, longer, 0xffff_ffff);
    lemma_log_of_u32_max();
}

proof fn lemma_log_of_u32_max()
    ensures
        log(2, 0xffff_ffff) == 31,
{
    reveal_with_fuel(log, 34);
}

/// Two to the power of the floor of the binary logarithm of a positive
/// number does not exceed the number.
proof fn lemma_pow2_of_log(n: nat)
    requires
        n >= 1,
    ensures
        log(2, n as int) >= 0,
        pow2(log(2, n as int) as nat) <= n,
    decreases n,
{
    vstd::arithmetic::logarithm::lemma_log_nonnegative(2, n as int);
    if n < 2 {
        lemma_log0(2, n as int);
        lemma2_to64();
    } else {
        lemma_log_s(2, n as int);
        lemma_pow2_of_log(n / 2);
        lemma_pow2_unfold((log(2, n as int)) as nat);
    }
}

/// At every level of the full pyramid, the longer side of the image has not
/// yet been cut below one pixel.
pub proof fn lemma_longer_side_unclamped(width: nat, height: nat, level: nat)
    requires
        width >= 1 || height >= 1,
        level < full_levels(width, height),
    ensures
        width >= height ==> width / pow2(level) >= 1,
        height >= width ==> height / pow2(level) >= 1,
{
    let longer: nat = if width >= height {
        width
    } else {
        height
    };
    lemma_pow2_of_log(longer);
    let top = log(2, longer as int) as nat;
    if level < top {
        lemma_pow2_strictly_increases(level, top);
    }
    lemma_pow2_pos(level);
    vstd::arithmetic::div_mod::lemma_div_is_ordered(
        pow2(level) as int,
        longer as int,
        pow2(level) as int,
    );
    vstd::arithmetic::div_mod::lemma_div_basics_3(pow2(level) as int);
}

/// From one level of the full pyramid to the next, the number of pixels at
/// least halves.
pub proof fn lemma_level_area_halves(width: nat, height: nat, level: nat)
    requires
        width >= 1 || height >= 1,
        level + 1 < full_levels(width, height),
    ensures
        2 * level_area(width, height, level + 1) <= level_area(width, height, level),
{
    lemma_longer_side_unclamped(width, height, level + 1);
    lemma_mip_dim_step(width, level);
    lemma_mip_dim_step(height, level);
    let w0 = mip_dim(width, level);
    let h0 = mip_dim(height, level);
    let w1 = mip_dim(width, level + 1);
    let h1 = mip_dim(height, level + 1);
    if width >= height {
        assert(2 * (w1 * h1) <= w0 * h0) by (nonlinear_arith)
            requires
                2 * w1 <= w0,
                h1 <= h0,
        ;
    } else {
        assert(2 * (w1 * h1) <= w0 * h0) by (nonlinear_arith)
            requires
                w1 <= w0,
                2 * h1 <= h0,
        ;
    }
}

/// The levels of a pyramid that is no longer than the full pyramid hold,
/// taken together, fewer than twice the pixels of level 0.
pub proof fn lemma_pyramid_area_bound(width: nat, height: nat, levels: nat)
    requires
        width >= 1,
        height >= 1,
        1 <= levels <= full_levels(width, height),
    ensures
        levels_area(width, height, levels) + level_area(width, height, (levels - 1) as nat) <= 2
            * (width * height),
        levels_area(width, height, levels) < 2 * (width * height),
    decreases levels,
{
    lemma_level_area_positive(width, height, (levels - 1) as nat);
    if levels == 1 {
        lemma_mip_dim_base(width);
        lemma_mip_dim_base(height);
        assert(levels_area(width, height, 0) == 0);
    } else {
        lemma_pyramid_area_bound(width, height, (levels - 1) as nat);
        lemma_level_area_halves(width, height, (levels - 2) as nat);
    }
}

/// Number of levels in the full pyramid of a `width` x `height` image.
pub fn max_mipmap_levels(width: u32, height: u32) -> (levels: u32)
    ensures
        levels == full_levels(width as nat, height as nat),
        1 <= levels <= 32,
{
    let longer: u32 = if width >= height {
        width
    } else {
        height
    };
    let mut rest: u32 = longer;
    let mut levels: u32 = 1;
    proof {
        lemma_full_levels_range(width as nat, height as nat);
        vstd::arithmetic::logarithm::lemma_log_nonnegative(2, longer as int);
    }
    while rest >= 2
        invariant
            levels + log(2, rest as int) == 1 + log(2, longer as int),
            1 <= levels,
            1 + log(2, longer as int) <= 32,
            log(2, rest as int) >= 0,
        decreases rest,
    {
        proof {
            lemma_log_s(2, rest as int);
            vstd::arithmetic::logarithm::lemma_log_nonnegative(2, rest as int / 2);
        }
        rest = rest / 2;
        levels = levels + 1;
    }
    proof {
        lemma_log0(2, rest as int);
    }
    levels
}

/// Side length at mip level `level` of an image whose side at level 0 is
/// `dim`.
pub fn mipmapped_size(dim: u32, level: u32) -> (side: u32)
    ensures
        side == mip_dim(dim as nat, level as nat),
        side >= 1,
{
    if level >= 32 {
        proof {
            lemma_mip_dim_saturates(dim as nat, level as nat);
        }
        1
    } else {
        proof {
            lemma_u32_shr_is_div(dim, level);
        }
        let shifted: u32 = dim >> level;
        if shifted >= 1 {
            shifted
        } else {
            1
        }
    }
}

/// Number of pixels in the mip levels `0 .. levels` of a `width` x `height`
/// image, taken together.
pub fn size_per_layer(width: u32, height: u32, levels: u32) -> (size: usize)
    requires
        levels_area(width as nat, height as nat, levels as nat) <= usize::MAX,
    ensures
        size == levels_area(width as nat, height as nat, levels as nat),
{
    let mut size: usize = 0;
    let mut level: u32 = 0;
    while level < levels
        invariant
            level <= levels,
            size == levels_area(width as nat, height as nat, level as nat),
            levels_area(width as nat, height as nat, levels as nat) <= usize::MAX,
        decreases levels - level,
    {
        let w: u32 = mipmapped_size(width, level);
        let h: u32 = mipmapped_size(height, level);
        proof {
            lemma_levels_area_monotone(
                width as nat,
                height as nat,
                level as nat,
                levels as nat,
            );
            assert(level_area(width as nat, height as nat, level as nat) == w * h);
        }
        size = size + (w as usize) * (h as usize);
        level = level + 1;
    }
    size
}

} // verus!
