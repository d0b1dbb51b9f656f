//! Cells of a Web Mercator raster, and the tiles they are seen through.

use vstd::prelude::*;

verus! {

/// Two to a power.
pub open spec fn power(n: nat) -> int
    decreases n,
{
    if n == 0 {
        1
    } else {
        2 * power((n - 1) as nat)
    }
}

pub proof fn lemma_power_bounds(n: nat, top: nat)
    requires
        n <= top,
    ensures
        1 <= power(n) <= power(top),
    decreases top,
{
    if n < top {
        lemma_power_bounds(n, (top - 1) as nat);
    } else if n > 0 {
        lemma_power_bounds((n - 1) as nat, (n - 1) as nat);
    }
}

/// Two to a power.
pub fn two_to(n: u32) -> (r: i64)
    requires
        n <= 54,
    ensures
        r == power(n as nat),
        1 <= r <= 18014398509481984,
{
    let mut r: i64 = 1;
    let mut i: u32 = 0;
    proof {
        reveal_with_fuel(power, 55);
        assert(power(54) == 18014398509481984);
    }
    while i < n
        invariant
            i <= n <= 54,
            r == power(i as nat),
            power(54) == 18014398509481984,
            1 <= r,
        decreases n - i,
    {
        proof {
            lemma_power_bounds((i + 1) as nat, 54);
        }
        r = 2 * r;
        i += 1;
    }
    proof {
        lemma_power_bounds(n as nat, 54);
    }
    r
}

pub proof fn lemma_inside(x: int, y: int, w: int, h: int)
    requires
        0 <= x < w,
        0 <= y < h,
    ensures
        0 <= y * w + x < w * h,
{
    assert(y * w + x < w * h) by (nonlinear_arith)
        requires
            0 <= x < w,
            0 <= y < h,
    ;
    assert(0 <= y * w) by (nonlinear_arith)
        requires
            0 <= y,
            0 <= w,
    ;
}

/// Where a cell stands in a row-major plane, or none where it lies outside.
pub fn cell_index(x: i64, y: i64, width: usize, height: usize) -> (r: Option<usize>)
    requires
        width * height <= usize::MAX,
    ensures
        r is Some <==> 0 <= x < width && 0 <= y < height,
        r matches Some(i) ==> i == y * width + x,
{
    if x < 0 || y < 0 || x as u64 >= width as u64 || y as u64 >= height as u64 {
        return None;
    }
    proof {
        lemma_inside(x as int, y as int, width as int, height as int);
        assert(y * width <= y * width + x);
        assert(0 <= y * width) by (nonlinear_arith)
            requires
                0 <= y,
                0 <= width,
        ;
    }
    Some(y as usize * width + x as usize)
}

/// The quotient of a division that rounds down.
pub fn quotient(a: i64, by: i64) -> (q: i64)
    requires
        by >= 1,
    ensures
        q == a as int / by as int,
{
    if a >= 0 {
        return a / by;
    }
    let up: i64 = -1 - a;
    let q: i64 = up / by;
    proof {
        let r = up as int % by as int;
        assert(up == by * q + r && 0 <= r < by && 0 <= q) by (nonlinear_arith)
            requires
                by >= 1,
                up >= 0,
                q == up as int / by as int,
                r == up as int % by as int,
        ;
        assert(a == by * (-1 - q) + (by - 1 - r)) by (nonlinear_arith)
            requires
                up == by * q + r,
                up == -1 - a,
        ;
        vstd::arithmetic::div_mod::lemma_fundamental_div_mod_converse(
            a as int,
            by as int,
            -1 - q,
            by - 1 - r,
        );
        assert(q <= up) by (nonlinear_arith)
            requires
                up == by * q + r,
                0 <= r,
                0 <= q,
                by >= 1,
        ;
    }
    -1 - q
}

pub proof fn lemma_quotient_bounds(a: int, by: int)
    requires
        by >= 1,
        -0x4000_0000_0000_0000 <= a <= 0x4000_0000_0000_0000,
    ensures
        -0x4000_0000_0000_0000 <= a / by <= 0x4000_0000_0000_0000,
{
    let q = a / by;
    assert(a == by * q + a % by && 0 <= a % by < by) by (nonlinear_arith)
        requires
            by >= 1,
            q == a / by,
    ;
    let m = a % by;
    assert(q <= 0x4000_0000_0000_0000) by (nonlinear_arith)
        requires
            a == by * q + m,
            0 <= m,
            by >= 1,
            a <= 0x4000_0000_0000_0000,
    ;
    assert(-0x4000_0000_0000_0000 <= q) by (nonlinear_arith)
        requires
            a == by * q + m,
            m < by,
            by >= 1,
            -0x4000_0000_0000_0000 <= a,
    ;
}

/// Halving and then dividing is dividing by twice as much.
pub proof fn lemma_halves(a: int, m: int)
    requires
        m >= 1,
    ensures
        a / (2 * m) == (a / 2) / m,
{
    let h = a / 2;
    let q = h / m;
    let r = h % m;
    assert(h == m * q + r && 0 <= r < m) by (nonlinear_arith)
        requires
            m >= 1,
            q == h / m,
            r == h % m,
    ;
    let rest = 2 * r + a % 2;
    assert(a == (2 * m) * q + rest) by (nonlinear_arith)
        requires
            h == m * q + r,
            a == 2 * h + a % 2,
            rest == 2 * r + a % 2,
    ;
    vstd::arithmetic::div_mod::lemma_fundamental_div_mod_converse(a, 2 * m, q, rest);
}

/// Powers of two: one more is twice as much, and powers multiply by adding up.
pub proof fn law_powers(m: nat, n: nat)
    ensures
        power(0) == 1,
        power(1) == 2,
        power(m + n) == power(m) * power(n),
        power(n) >= 1,
    decreases n,
{
    reveal_with_fuel(power, 2);
    if n > 0 {
        law_powers(m, (n - 1) as nat);
        let (a, b) = (power(m), power((n - 1) as nat));
        assert(2 * (a * b) == a * (2 * b)) by (nonlinear_arith);
        assert(power(m + n) == 2 * power((m + n - 1) as nat));
    } else {
        assert(power(m) * 1 == power(m));
    }
}

} // verus!
