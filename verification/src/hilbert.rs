//! The Hilbert space-filling curve: a pure mapping from a point (x, y) of an
//! n-by-n grid (n a power of two) to its distance along the curve, together
//! with proofs that the mapping is a bijection onto [0, n*n).

use vstd::prelude::*;

verus! {

/// `n` is one of 1, 2, 4, 8, ...: a valid side length for a Hilbert curve.
pub open spec fn is_pow2(n: nat) -> bool
    decreases n,
{
    if n == 0 {
        false
    } else if n == 1 {
        true
    } else {
        n % 2 == 0 && is_pow2(n / 2)
    }
}

/// The quadrant contribution `(3*rx) XOR ry` of one scale step, written out
/// by cases over the two coordinate bits.
pub open spec fn quadrant(rx: nat, ry: nat) -> nat {
    if rx == 1 {
        if ry == 1 {
            2
        } else {
            3
        }
    } else {
        if ry == 1 {
            1
        } else {
            0
        }
    }
}

/// Distance of the point (x, y) along the Hilbert curve filling an n-by-n
/// grid, for n a power of two and x, y < n (outside that domain the value is
/// of no interest). Coordinate bits are consumed from least significant
/// upward: the pair of low bits picks a quadrant, and the remaining bits are
/// reflected and swapped by the usual Hilbert rotation before recursing at
/// half the scale.
pub open spec fn hilbert_d(n: nat, x: nat, y: nat) -> nat
    decreases n,
{
    if n <= 1 {
        0
    } else {
        let rx = x % 2;
        let ry = y % 2;
        let q = quadrant(rx, ry);
        if ry == 0 {
            let xr = if rx == 1 {
                (n - 1 - x) as nat
            } else {
                x
            };
            let yr = if rx == 1 {
                (n - 1 - y) as nat
            } else {
                y
            };
            q + 4 * hilbert_d(n / 2, yr / 2, xr / 2)
        } else {
            q + 4 * hilbert_d(n / 2, x / 2, y / 2)
        }
    }
}

/// Every distance is below n*n (each of the log2(n) quadrant digits is at
/// most 3, so the base-4 numeral they form is at most n*n - 1).
pub proof fn lemma_hilbert_d_range(n: nat, x: nat, y: nat)
    requires
        is_pow2(n),
    ensures
        hilbert_d(n, x, y) < n * n,
    decreases n,
{
    if n <= 1 {
        assert(n * n == 1) by (nonlinear_arith)
            requires
                n == 1,
        ;
    } else {
        let rx = x % 2;
        let ry = y % 2;
        let q = quadrant(rx, ry);
        if ry == 0 {
            let xr = if rx == 1 {
                (n - 1 - x) as nat
            } else {
                x
            };
            let yr = if rx == 1 {
                (n - 1 - y) as nat
            } else {
                y
            };
            let h1 = hilbert_d(n / 2, yr / 2, xr / 2);
            assert(hilbert_d(n, x, y) == q + 4 * h1);
            lemma_hilbert_d_range(n / 2, yr / 2, xr / 2);
            assert(h1 < (n / 2) * (n / 2));
        } else {
            let h1 = hilbert_d(n / 2, x / 2, y / 2);
            assert(hilbert_d(n, x, y) == q + 4 * h1);
            lemma_hilbert_d_range(n / 2, x / 2, y / 2);
            assert(h1 < (n / 2) * (n / 2));
        }
        assert(q <= 3);
        assert(4 * ((n / 2) * (n / 2)) == n * n) by (nonlinear_arith)
            requires
                n % 2 == 0,
                n >= 2,
        ;
    }
}

proof fn lemma_half_lt(v: nat, n: nat)
    requires
        n % 2 == 0,
        n >= 2,
        v < n,
    ensures
        v / 2 < n / 2,
{
    assert(v / 2 < n / 2) by (nonlinear_arith)
        requires
            n % 2 == 0,
            n >= 2,
            v < n,
    ;
}

proof fn lemma_complement_parity(v: nat, n: nat)
    requires
        n % 2 == 0,
        n >= 2,
        v < n,
    ensures
        (n - 1 - v) % 2 == 1 - v % 2,
{
    assert((n - 1 - v) % 2 == 1 - v % 2) by (nonlinear_arith)
        requires
            n % 2 == 0,
            n >= 2,
            v < n,
    ;
}

proof fn lemma_halves(v: nat)
    ensures
        v == 2 * (v / 2) + v % 2,
        v % 2 == 0 || v % 2 == 1,
{
    assert(v == 2 * (v / 2) + v % 2) by (nonlinear_arith);
    assert(v % 2 == 0 || v % 2 == 1) by (nonlinear_arith);
}

/// Distinct points of the n-by-n grid map to distinct distances: the
/// quadrant digit recovers the low coordinate bits, and by induction the
/// rest of the distance recovers the rest of the point.
pub proof fn lemma_hilbert_d_injective(n: nat, x1: nat, y1: nat, x2: nat, y2: nat)
    requires
        is_pow2(n),
        x1 < n,
        y1 < n,
        x2 < n,
        y2 < n,
        hilbert_d(n, x1, y1) == hilbert_d(n, x2, y2),
    ensures
        x1 == x2,
        y1 == y2,
    decreases n,
{
    if n <= 1 {
    } else {
        let rx1 = x1 % 2;
        let ry1 = y1 % 2;
        let rx2 = x2 % 2;
        let ry2 = y2 % 2;
        let q1 = quadrant(rx1, ry1);
        let q2 = quadrant(rx2, ry2);
        lemma_halves(x1);
        lemma_halves(y1);
        lemma_halves(x2);
        lemma_halves(y2);
        let h1: nat = if ry1 == 0 {
            let xr = if rx1 == 1 {
                (n - 1 - x1) as nat
            } else {
                x1
            };
            let yr = if rx1 == 1 {
                (n - 1 - y1) as nat
            } else {
                y1
            };
            hilbert_d(n / 2, yr / 2, xr / 2)
        } else {
            hilbert_d(n / 2, x1 / 2, y1 / 2)
        };
        let h2: nat = if ry2 == 0 {
            let xr = if rx2 == 1 {
                (n - 1 - x2) as nat
            } else {
                x2
            };
            let yr = if rx2 == 1 {
                (n - 1 - y2) as nat
            } else {
                y2
            };
            hilbert_d(n / 2, yr / 2, xr / 2)
        } else {
            hilbert_d(n / 2, x2 / 2, y2 / 2)
        };
        assert(hilbert_d(n, x1, y1) == q1 + 4 * h1);
        assert(hilbert_d(n, x2, y2) == q2 + 4 * h2);
        assert(q1 < 4 && q2 < 4);
        assert(q1 == q2 && h1 == h2);
        assert(rx1 == rx2 && ry1 == ry2);
        if ry1 == 0 {
            let xr1 = if rx1 == 1 {
                (n - 1 - x1) as nat
            } else {
                x1
            };
            let yr1 = if rx1 == 1 {
                (n - 1 - y1) as nat
            } else {
                y1
            };
            let xr2 = if rx2 == 1 {
                (n - 1 - x2) as nat
            } else {
                x2
            };
            let yr2 = if rx2 == 1 {
                (n - 1 - y2) as nat
            } else {
                y2
            };
            lemma_half_lt(yr1, n);
            lemma_half_lt(xr1, n);
            lemma_half_lt(yr2, n);
            lemma_half_lt(xr2, n);
            lemma_hilbert_d_injective(n / 2, yr1 / 2, xr1 / 2, yr2 / 2, xr2 / 2);
            lemma_halves(xr1);
            lemma_halves(yr1);
            lemma_halves(xr2);
            lemma_halves(yr2);
            if rx1 == 1 {
                lemma_complement_parity(x1, n);
                lemma_complement_parity(y1, n);
                lemma_complement_parity(x2, n);
                lemma_complement_parity(y2, n);
            }
            assert(xr1 == xr2 && yr1 == yr2);
        } else {
            lemma_half_lt(x1, n);
            lemma_half_lt(y1, n);
            lemma_half_lt(x2, n);
            lemma_half_lt(y2, n);
            lemma_hilbert_d_injective(n / 2, x1 / 2, y1 / 2, x2 / 2, y2 / 2);
        }
    }
}

/// Every distance below n*n is reached by some point of the grid: the low
/// quadrant digit dictates the coordinate parities, and by induction a point
/// of the half-scale grid supplies the remaining bits.
pub proof fn lemma_hilbert_d_surjective(n: nat, d: nat)
    requires
        is_pow2(n),
        d < n * n,
    ensures
        exists|x: nat, y: nat| x < n && y < n && #[trigger] hilbert_d(n, x, y) == d,
    decreases n,
{
    if n <= 1 {
        assert(n * n == 1) by (nonlinear_arith)
            requires
                n == 1,
        ;
        assert(hilbert_d(1, 0, 0) == 0);
    } else {
        let q = d % 4;
        let dr = d / 4;
        vstd::arithmetic::div_mod::lemma_fundamental_div_mod(d as int, 4);
        assert(d == 4 * dr + q);
        assert(q < 4) by (nonlinear_arith)
            requires
                q == d % 4,
        ;
        vstd::arithmetic::div_mod::lemma_fundamental_div_mod(n as int, 2);
        assert(2 * (n / 2) == n);
        let half = n / 2;
        assert(4 * (half * half) == n * n) by (nonlinear_arith)
            requires
                2 * half == n,
        ;
        assert(dr < half * half);
        lemma_hilbert_d_surjective(half, dr);
        let (u, v) = choose|u: nat, v: nat|
            u < half && v < half && #[trigger] hilbert_d(half, u, v) == dr;
        if q == 0 {
            let x = 2 * v;
            let y = 2 * u;
            vstd::arithmetic::div_mod::lemma_fundamental_div_mod_converse(x as int, 2, v as int, 0);
            vstd::arithmetic::div_mod::lemma_fundamental_div_mod_converse(y as int, 2, u as int, 0);
            assert(hilbert_d(n, x, y) == d);
        } else if q == 1 {
            let x = 2 * u;
            let y = 2 * v + 1;
            vstd::arithmetic::div_mod::lemma_fundamental_div_mod_converse(x as int, 2, u as int, 0);
            vstd::arithmetic::div_mod::lemma_fundamental_div_mod_converse(y as int, 2, v as int, 1);
            assert(hilbert_d(n, x, y) == d);
        } else if q == 2 {
            let x = 2 * u + 1;
            let y = 2 * v + 1;
            vstd::arithmetic::div_mod::lemma_fundamental_div_mod_converse(x as int, 2, u as int, 1);
            vstd::arithmetic::div_mod::lemma_fundamental_div_mod_converse(y as int, 2, v as int, 1);
            assert(hilbert_d(n, x, y) == d);
        } else {
            let x = (n - 1 - 2 * v) as nat;
            let y = (n - 2 - 2 * u) as nat;
            assert(x == 2 * (half - 1 - v) + 1 && y == 2 * (half - 1 - u));
            vstd::arithmetic::div_mod::lemma_fundamental_div_mod_converse(
                x as int,
                2,
                half - 1 - v,
                1,
            );
            vstd::arithmetic::div_mod::lemma_fundamental_div_mod_converse(
                y as int,
                2,
                half - 1 - u,
                0,
            );
            assert(x < n && y < n && x % 2 == 1 && y % 2 == 0);
            let xr = (n - 1 - x) as nat;
            let yr = (n - 1 - y) as nat;
            assert(xr == 2 * v && yr == 2 * u + 1);
            vstd::arithmetic::div_mod::lemma_fundamental_div_mod_converse(xr as int, 2, v as int, 0);
            vstd::arithmetic::div_mod::lemma_fundamental_div_mod_converse(
                yr as int,
                2,
                u as int,
                1,
            );
            assert(yr / 2 == u && xr / 2 == v);
            assert(hilbert_d(n, x, y) == d);
        }
    }
}

/// Maps a point (x, y) of an n-by-n grid (n a power of two) to its distance
/// along the Hilbert curve. Iterates from the lowest coordinate bits upward,
/// keeping in `m` the scale still to process, in `w` the weight of the
/// current quadrant digit, and in `xs`, `ys` the coordinates with the
/// consumed low bits shifted out.
pub fn hilbert_xy_to_d(n: usize, x: usize, y: usize) -> (d: usize)
    requires
        is_pow2(n as nat),
        x < n,
        y < n,
        n <= 0x8000,
    ensures
        d == hilbert_d(n as nat, x as nat, y as nat),
        d < n * n,
{
    let mut m: usize = n;
    let mut xs: usize = x;
    let mut ys: usize = y;
    let mut d: usize = 0;
    let mut w: usize = 1;
    while m > 1
        invariant
            is_pow2(m as nat),
            1 <= m <= n <= 0x8000,
            xs < m,
            ys < m,
            w * (m * m) == n * n,
            d < w,
            d + w * hilbert_d(m as nat, xs as nat, ys as nat) == hilbert_d(
                n as nat,
                x as nat,
                y as nat,
            ),
        decreases m,
    {
        let ghost m0: nat = m as nat;
        let ghost xs0: nat = xs as nat;
        let ghost ys0: nat = ys as nat;
        let ghost w0: nat = w as nat;
        let ghost d0: nat = d as nat;
        let rx: usize = xs % 2;
        let ry: usize = ys % 2;
        let q: usize = if rx == 1 {
            if ry == 1 {
                2
            } else {
                3
            }
        } else {
            if ry == 1 {
                1
            } else {
                0
            }
        };
        proof {
            assert(q == quadrant(rx as nat, ry as nat));
            assert(n * n <= 0x4000_0000) by (nonlinear_arith)
                requires
                    n <= 0x8000,
            ;
            assert(w * q <= w * 3) by (nonlinear_arith)
                requires
                    q <= 3,
                    w >= 0,
            ;
            assert(w * 4 <= w * (m * m)) by (nonlinear_arith)
                requires
                    m >= 2,
                    w >= 1,
            ;
        }
        d = d + w * q;
        if ry == 0 {
            if rx == 1 {
                xs = m - 1 - xs;
                ys = m - 1 - ys;
            }
            let t = xs;
            xs = ys;
            ys = t;
        }
        proof {
            assert(xs as nat / 2 < m0 / 2) by (nonlinear_arith)
                requires
                    m0 % 2 == 0,
                    m0 >= 2,
                    xs < m0,
            ;
            assert(ys as nat / 2 < m0 / 2) by (nonlinear_arith)
                requires
                    m0 % 2 == 0,
                    m0 >= 2,
                    ys < m0,
            ;
        }
        xs = xs / 2;
        ys = ys / 2;
        m = m / 2;
        proof {
            let h1: nat = hilbert_d(m as nat, xs as nat, ys as nat);
            assert(hilbert_d(m0, xs0, ys0) == quadrant(xs0 % 2, ys0 % 2) + 4 * h1);
            assert(d0 + w0 * (quadrant(xs0 % 2, ys0 % 2) + 4 * h1) == (d0 + w0 * quadrant(
                xs0 % 2,
                ys0 % 2,
            )) + (4 * w0) * h1) by (nonlinear_arith);
            assert((4 * w0) * ((m0 / 2) * (m0 / 2)) == w0 * (m0 * m0)) by (nonlinear_arith)
                requires
                    m0 % 2 == 0,
                    m0 >= 2,
            ;
        }
        w = w * 4;
    }
    proof {
        assert(hilbert_d(1, xs as nat, ys as nat) == 0);
        assert(w * 1 == w) by (nonlinear_arith);
        assert(d + w * 0 == d) by (nonlinear_arith);
    }
    d
}

} // verus!
