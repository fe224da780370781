use vstd::prelude::*;

verus! {

/// `r` is the square root of `n`, rounded down.
pub open spec fn is_floor_sqrt(n: nat, r: nat) -> bool {
    r * r <= n < (r + 1) * (r + 1)
}

/// The square root of `n`, rounded down.
pub open spec fn floor_sqrt(n: nat) -> nat {
    choose|r: nat| is_floor_sqrt(n, r)
}

/// How far apart two coordinates are.
pub open spec fn gap(a: i32, b: i32) -> nat {
    if a >= b {
        (a - b) as nat
    } else {
        (b - a) as nat
    }
}

/// The Euclidean distance between two positions, rounded down to whole
/// units.
pub open spec fn euclid(a: (i32, i32), b: (i32, i32)) -> nat {
    floor_sqrt(gap(a.0, b.0) * gap(a.0, b.0) + gap(a.1, b.1) * gap(a.1, b.1))
}

/// A number has one rounded-down square root.
pub proof fn lemma_floor_sqrt_unique(n: nat, r1: nat, r2: nat)
    requires
        is_floor_sqrt(n, r1),
        is_floor_sqrt(n, r2),
    ensures
        r1 == r2,
{
    if r1 < r2 {
        assert((r1 + 1) * (r1 + 1) <= r2 * r2) by (nonlinear_arith)
            requires
                r1 + 1 <= r2,
        ;
    }
    if r2 < r1 {
        assert((r2 + 1) * (r2 + 1) <= r1 * r1) by (nonlinear_arith)
            requires
                r2 + 1 <= r1,
        ;
    }
}

pub fn integer_sqrt(n: u128) -> (r: u64)
    ensures
        is_floor_sqrt(n as nat, r as nat),
        r == floor_sqrt(n as nat),
{
    let mut lo: u128 = 0;
    let mut hi: u128 = 0x1_0000_0000_0000_0000;
    assert(0x1_0000_0000_0000_0000int * 0x1_0000_0000_0000_0000int
        == 0x1_0000_0000_0000_0000_0000_0000_0000_0000int);
    while hi - lo > 1
        invariant
            lo < hi <= 0x1_0000_0000_0000_0000,
            lo * lo <= n < hi * hi,
        decreases hi - lo,
    {
        let mid = lo + (hi - lo) / 2;
        assert(mid * mid <= 0xffff_ffff_ffff_ffff * 0xffff_ffff_ffff_ffff) by (nonlinear_arith)
            requires
                0 <= mid <= 0xffff_ffff_ffff_ffff,
        ;
        assert(0xffff_ffff_ffff_ffffint * 0xffff_ffff_ffff_ffffint
            == 0xffff_ffff_ffff_fffe_0000_0000_0000_0001int);
        if mid * mid <= n {
            lo = mid;
        } else {
            hi = mid;
        }
    }
    proof {
        assert(hi == lo + 1);
        assert(is_floor_sqrt(n as nat, lo as nat));
        lemma_floor_sqrt_unique(n as nat, lo as nat, floor_sqrt(n as nat));
    }
    lo as u64
}

/// The Euclidean distance between two positions, rounded down to whole
/// units.
pub fn distance(a: (i32, i32), b: (i32, i32)) -> (d: u64)
    ensures
        d == euclid(a, b),
{
    let dx: u128 = if a.0 >= b.0 {
        (a.0 as i64 - b.0 as i64) as u128
    } else {
        (b.0 as i64 - a.0 as i64) as u128
    };
    let dy: u128 = if a.1 >= b.1 {
        (a.1 as i64 - b.1 as i64) as u128
    } else {
        (b.1 as i64 - a.1 as i64) as u128
    };
    assert(dx * dx <= 0xffff_ffff * 0xffff_ffff) by (nonlinear_arith)
        requires
            0 <= dx <= 0xffff_ffff,
    ;
    assert(dy * dy <= 0xffff_ffff * 0xffff_ffff) by (nonlinear_arith)
        requires
            0 <= dy <= 0xffff_ffff,
    ;
    integer_sqrt(dx * dx + dy * dy)
}

} // verus!
