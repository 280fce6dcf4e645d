//! Distance-weighted box blur. Each output byte is the weighted mean of the
//! same channel over the in-bounds pixels of a square neighbourhood; a
//! neighbour at squared distance `d2` weighs `WEIGHT_SCALE / (1 + d2)`, the
//! fixed-point form of `1 / (1 + d2)`.
//!
//! Cost: one pass reads `(2r + 1)^2` neighbours for each of the four channels
//! of every pixel, that is `O(width * height * r^2)` per iteration.
use vstd::prelude::*;
use vstd::arithmetic::div_mod::lemma_fundamental_div_mod;
use crate::abi::buffer_len;

verus! {

/// Fixed-point scale of the neighbour weights (2^22): large enough that every
/// neighbour of a maximal neighbourhood keeps a positive weight.
pub const WEIGHT_SCALE: u64 = 4194304;

/// Largest neighbourhood half-width the kernel accepts.
pub const MAX_RADIUS: u32 = 1000;

/// Weight of a neighbour at squared distance `d2` from the centre.
pub open spec fn weight(d2: int) -> int {
    WEIGHT_SCALE as int / (1 + d2)
}

/// Squared distance between pixels `(x, y)` and `(nx, ny)`.
pub open spec fn dist2(x: int, y: int, nx: int, ny: int) -> int {
    (nx - x) * (nx - x) + (ny - y) * (ny - y)
}

/// First in-bounds coordinate of a neighbourhood of half-width `r` around `p`.
pub open spec fn lo_of(p: int, r: int) -> int {
    if p >= r {
        p - r
    } else {
        0
    }
}

/// One past the last in-bounds coordinate of that neighbourhood, for an axis of length `n`.
pub open spec fn hi_of(p: int, r: int, n: int) -> int {
    if p + r + 1 <= n {
        p + r + 1
    } else {
        n
    }
}

/// Sum of the weights of the `n` neighbours `(lo .. lo + n, ny)` of `(x, y)`.
pub open spec fn row_weight_sum(x: int, y: int, ny: int, lo: int, n: nat) -> int
    decreases n,
{
    if n == 0 {
        0
    } else {
        row_weight_sum(x, y, ny, lo, (n - 1) as nat) + weight(dist2(x, y, lo + n - 1, ny))
    }
}

/// Weighted sum of channel `c` over the `n` neighbours `(lo .. lo + n, ny)` of `(x, y)`.
pub open spec fn row_value_sum(s: Seq<u8>, w: int, c: int, x: int, y: int, ny: int, lo: int, n: nat) -> int
    decreases n,
{
    if n == 0 {
        0
    } else {
        row_value_sum(s, w, c, x, y, ny, lo, (n - 1) as nat) + s[(ny * w + lo + n - 1) * 4 + c]
            * weight(dist2(x, y, lo + n - 1, ny))
    }
}

/// Sum of the weights over the rows `ylo .. ylo + m` of the neighbourhood of `(x, y)`.
pub open spec fn window_weight_sum(w: int, r: int, x: int, y: int, ylo: int, m: nat) -> int
    decreases m,
{
    if m == 0 {
        0
    } else {
        window_weight_sum(w, r, x, y, ylo, (m - 1) as nat) + row_weight_sum(
            x,
            y,
            ylo + m - 1,
            lo_of(x, r),
            (hi_of(x, r, w) - lo_of(x, r)) as nat,
        )
    }
}

/// Weighted sum of channel `c` over the rows `ylo .. ylo + m` of the neighbourhood of `(x, y)`.
pub open spec fn window_value_sum(s: Seq<u8>, w: int, c: int, r: int, x: int, y: int, ylo: int, m: nat) -> int
    decreases m,
{
    if m == 0 {
        0
    } else {
        window_value_sum(s, w, c, r, x, y, ylo, (m - 1) as nat) + row_value_sum(
            s,
            w,
            c,
            x,
            y,
            ylo + m - 1,
            lo_of(x, r),
            (hi_of(x, r, w) - lo_of(x, r)) as nat,
        )
    }
}

/// Byte `i` of one blur pass with half-width `r` over `s`: the truncated
/// weighted mean of its channel over the in-bounds neighbourhood, or the
/// source byte where the weights sum to zero.
pub open spec fn blurred_byte(s: Seq<u8>, w: int, h: int, r: int, i: int) -> u8 {
    let p = i / 4;
    let c = i % 4;
    let x = p % w;
    let y = p / w;
    let ylo = lo_of(y, r);
    let m = (hi_of(y, r, h) - ylo) as nat;
    let den = window_weight_sum(w, r, x, y, ylo, m);
    let num = window_value_sum(s, w, c, r, x, y, ylo, m);
    if den > 0 {
        (num / den) as u8
    } else {
        s[i]
    }
}

/// One full blur pass, computed from the unmodified source.
pub open spec fn blur_pass(s: Seq<u8>, w: int, h: int, r: int) -> Seq<u8> {
    Seq::new(s.len(), |i: int| blurred_byte(s, w, h, r, i))
}

/// `n` successive blur passes with the same half-width.
pub open spec fn blur_repeated(s: Seq<u8>, w: int, h: int, r: int, n: nat) -> Seq<u8>
    decreases n,
{
    if n == 0 {
        s
    } else {
        blur_pass(blur_repeated(s, w, h, r, (n - 1) as nat), w, h, r)
    }
}

/// Every pixel of `s` has the same colour: each byte equals the byte of the
/// same channel in the first pixel.
pub open spec fn is_uniform(s: Seq<u8>) -> bool {
    forall|j: int| 0 <= j < s.len() ==> #[trigger] s[j] == s[j % 4]
}

proof fn lemma_mul_div_cancel(v: int, d: int)
    requires
        d > 0,
    ensures
        (v * d) / d == v,
{
    assert((v * d) / d == v) by (nonlinear_arith)
        requires
            d > 0,
    ;
}

proof fn lemma_uniform_row(s: Seq<u8>, w: int, h: int, c: int, x: int, y: int, ny: int, lo: int, n: nat)
    requires
        is_uniform(s),
        s.len() == buffer_len(w, h),
        0 <= c < 4,
        0 <= ny < h,
        0 <= lo,
        lo + n <= w,
    ensures
        row_value_sum(s, w, c, x, y, ny, lo, n) == s[c] * row_weight_sum(x, y, ny, lo, n),
    decreases n,
{
    if n > 0 {
        lemma_uniform_row(s, w, h, c, x, y, ny, lo, (n - 1) as nat);
        let q = ny * w + lo + n - 1;
        let idx = q * 4 + c;
        lemma_pixel_in_buffer(lo + n - 1, ny, c, w, h);
        assert(idx % 4 == c) by {
            vstd::arithmetic::div_mod::lemma_fundamental_div_mod_converse(idx, 4, q, c);
        }
        assert(s[idx] == s[idx % 4]);
        assert(s[idx] == s[c]);
        let a = row_weight_sum(x, y, ny, lo, (n - 1) as nat);
        let b = weight(dist2(x, y, lo + n - 1, ny));
        assert(s[c] * a + s[c] * b == s[c] * (a + b)) by (nonlinear_arith);
    }
}

proof fn lemma_uniform_window(s: Seq<u8>, w: int, h: int, c: int, r: int, x: int, y: int, ylo: int, m: nat)
    requires
        is_uniform(s),
        s.len() == buffer_len(w, h),
        0 <= c < 4,
        0 <= x < w,
        0 <= r,
        0 <= ylo,
        ylo + m <= h,
    ensures
        window_value_sum(s, w, c, r, x, y, ylo, m) == s[c] * window_weight_sum(w, r, x, y, ylo, m),
    decreases m,
{
    if m > 0 {
        lemma_uniform_window(s, w, h, c, r, x, y, ylo, (m - 1) as nat);
        let lo = lo_of(x, r);
        let n = (hi_of(x, r, w) - lo) as nat;
        lemma_uniform_row(s, w, h, c, x, y, ylo + m - 1, lo, n);
        let a = window_weight_sum(w, r, x, y, ylo, (m - 1) as nat);
        let b = row_weight_sum(x, y, ylo + m - 1, lo, n);
        assert(s[c] * a + s[c] * b == s[c] * (a + b)) by (nonlinear_arith);
    }
}

/// A blur pass leaves a buffer of one uniform colour unchanged, whatever
/// the half-width.
pub proof fn lemma_blur_uniform(s: Seq<u8>, w: int, h: int, r: int)
    requires
        s.len() == buffer_len(w, h),
        w >= 0,
        h >= 0,
        r >= 0,
        is_uniform(s),
    ensures
        blur_pass(s, w, h, r) == s,
{
    assert forall|i: int| 0 <= i < s.len() implies #[trigger] blur_pass(s, w, h, r)[i] == s[i] by {
        lemma_coords(i, w, h);
        let p = i / 4;
        let c = i % 4;
        let x = p % w;
        let y = p / w;
        let ylo = lo_of(y, r);
        let m = (hi_of(y, r, h) - ylo) as nat;
        lemma_uniform_window(s, w, h, c, r, x, y, ylo, m);
        let den = window_weight_sum(w, r, x, y, ylo, m);
        if den > 0 {
            lemma_mul_div_cancel(s[c] as int, den);
        }
        assert(s[i] == s[i % 4]);
    }
    assert(blur_pass(s, w, h, r) =~= s);
}

/// Any number of blur passes leaves a buffer of one uniform colour unchanged.
pub proof fn lemma_blur_repeated_uniform(s: Seq<u8>, w: int, h: int, r: int, n: nat)
    requires
        s.len() == buffer_len(w, h),
        w >= 0,
        h >= 0,
        r >= 0,
        is_uniform(s),
    ensures
        blur_repeated(s, w, h, r, n) == s,
    decreases n,
{
    if n > 0 {
        lemma_blur_repeated_uniform(s, w, h, r, (n - 1) as nat);
        lemma_blur_uniform(s, w, h, r);
    }
}

/// With half-width zero the neighbourhood is the centre pixel alone, and a
/// blur pass leaves every buffer unchanged.
pub proof fn lemma_blur_radius_zero(s: Seq<u8>, w: int, h: int)
    requires
        s.len() == buffer_len(w, h),
        w >= 0,
        h >= 0,
    ensures
        blur_pass(s, w, h, 0) == s,
{
    reveal_with_fuel(window_weight_sum, 2);
    reveal_with_fuel(window_value_sum, 2);
    reveal_with_fuel(row_weight_sum, 2);
    reveal_with_fuel(row_value_sum, 2);
    assert forall|i: int| 0 <= i < s.len() implies #[trigger] blur_pass(s, w, h, 0)[i] == s[i] by {
        lemma_coords(i, w, h);
        let p = i / 4;
        let c = i % 4;
        let x = p % w;
        let y = p / w;
        assert(dist2(x, y, x, y) == 0);
        assert(weight(0) == WEIGHT_SCALE);
        assert(window_weight_sum(w, 0, x, y, y, 1) == WEIGHT_SCALE);
        assert(window_value_sum(s, w, c, 0, x, y, y, 1) == s[i] * WEIGHT_SCALE);
        lemma_mul_div_cancel(s[i] as int, WEIGHT_SCALE as int);
    }
    assert(blur_pass(s, w, h, 0) =~= s);
}

/// Largest value of channel `c` over the first `n` pixels.
pub open spec fn channel_max(s: Seq<u8>, c: int, n: nat) -> int
    decreases n,
{
    if n == 0 {
        0
    } else {
        let m = channel_max(s, c, (n - 1) as nat);
        let v = s[(n - 1) * 4 + c] as int;
        if v > m {
            v
        } else {
            m
        }
    }
}

proof fn lemma_channel_max(s: Seq<u8>, c: int, n: nat)
    requires
        n >= 1,
        0 <= c < 4,
        n * 4 <= s.len(),
    ensures
        forall|p: int| 0 <= p < n ==> s[#[trigger] (p * 4) + c] <= channel_max(s, c, n),
        exists|p: int| 0 <= p < n && s[#[trigger] (p * 4) + c] == channel_max(s, c, n),
    decreases n,
{
    if n > 1 {
        lemma_channel_max(s, c, (n - 1) as nat);
        let k = (n - 1) as int;
        if s[k * 4 + c] <= channel_max(s, c, (n - 1) as nat) {
            let p = choose|p: int| 0 <= p < n - 1 && s[#[trigger] (p * 4) + c] == channel_max(s, c, (n - 1) as nat);
            assert(0 <= p < n && s[p * 4 + c] == channel_max(s, c, n));
        } else {
            assert(s[k * 4 + c] == channel_max(s, c, n));
        }
    } else {
        assert(channel_max(s, c, 0) == 0);
        assert(s[0 * 4 + c] == channel_max(s, c, n));
    }
}

proof fn lemma_term_gap(v: int, m: int, wt: int)
    requires
        0 <= v <= m,
        0 <= wt,
    ensures
        v * wt <= m * wt,
        (m - v) * wt == m * wt - v * wt,
{
    assert(v * wt <= m * wt && (m - v) * wt == m * wt - v * wt) by (nonlinear_arith)
        requires
            0 <= v <= m,
            0 <= wt,
    ;
}

proof fn lemma_distrib(m: int, a: int, b: int)
    ensures
        m * (a + b) == m * a + m * b,
{
    assert(m * (a + b) == m * a + m * b) by (nonlinear_arith);
}

/// Over one row of the neighbourhood, values bounded by `m` give a weighted
/// sum bounded by `m` times the weights, with a gap for a smaller value at `qx`.
proof fn lemma_row_gap(s: Seq<u8>, w: int, h: int, c: int, x: int, y: int, ny: int, lo: int, n: nat, m: int, qx: int)
    requires
        s.len() == buffer_len(w, h),
        0 <= c < 4,
        0 <= ny < h,
        0 <= lo,
        lo + n <= w,
        forall|nx: int| 0 <= nx < w ==> #[trigger] s[(ny * w + nx) * 4 + c] <= m,
    ensures
        row_weight_sum(x, y, ny, lo, n) >= 0,
        row_value_sum(s, w, c, x, y, ny, lo, n) >= 0,
        row_value_sum(s, w, c, x, y, ny, lo, n) <= m * row_weight_sum(x, y, ny, lo, n),
        lo <= qx < lo + n ==> {
            let wq = weight(dist2(x, y, qx, ny));
            &&& row_weight_sum(x, y, ny, lo, n) >= wq
            &&& row_value_sum(s, w, c, x, y, ny, lo, n) + (m - s[(ny * w + qx) * 4 + c]) * wq <= m
                * row_weight_sum(x, y, ny, lo, n)
        },
    decreases n,
{
    if n > 0 {
        lemma_row_gap(s, w, h, c, x, y, ny, lo, (n - 1) as nat, m, qx);
        let nx = lo + n - 1;
        let d = dist2(x, y, nx, ny);
        assert(d >= 0) by (nonlinear_arith)
            requires
                d == (nx - x) * (nx - x) + (ny - y) * (ny - y),
        ;
        lemma_weight_bounds(d);
        let wt = weight(d);
        let v = s[(ny * w + nx) * 4 + c] as int;
        lemma_pixel_in_buffer(nx, ny, c, w, h);
        assert(v >= 0);
        assert(v <= m);
        lemma_term_bound(v, wt);
        lemma_term_gap(v, m, wt);
        lemma_distrib(m, row_weight_sum(x, y, ny, lo, (n - 1) as nat), wt);
        if qx == nx {
            lemma_term_gap(v, m, wt);
        }
    }
}

/// The same bound over the rows `ylo .. ylo + k` of the neighbourhood of `(x, y)`.
proof fn lemma_window_gap(s: Seq<u8>, w: int, h: int, c: int, r: int, x: int, y: int, ylo: int, k: nat, m: int, qx: int, qy: int)
    requires
        s.len() == buffer_len(w, h),
        0 <= c < 4,
        0 <= x < w,
        0 <= r,
        0 <= ylo,
        ylo + k <= h,
        forall|px: int, py: int| 0 <= px < w && 0 <= py < h ==> #[trigger] s[(py * w + px) * 4 + c] <= m,
    ensures
        window_weight_sum(w, r, x, y, ylo, k) >= 0,
        window_value_sum(s, w, c, r, x, y, ylo, k) >= 0,
        window_value_sum(s, w, c, r, x, y, ylo, k) <= m * window_weight_sum(w, r, x, y, ylo, k),
        ylo <= qy < ylo + k && lo_of(x, r) <= qx < hi_of(x, r, w) ==> {
            let wq = weight(dist2(x, y, qx, qy));
            &&& window_weight_sum(w, r, x, y, ylo, k) >= wq
            &&& window_value_sum(s, w, c, r, x, y, ylo, k) + (m - s[(qy * w + qx) * 4 + c]) * wq <= m
                * window_weight_sum(w, r, x, y, ylo, k)
        },
    decreases k,
{
    if k > 0 {
        lemma_window_gap(s, w, h, c, r, x, y, ylo, (k - 1) as nat, m, qx, qy);
        let ny = ylo + k - 1;
        let lo = lo_of(x, r);
        let n = (hi_of(x, r, w) - lo) as nat;
        assert forall|nx: int| 0 <= nx < w implies #[trigger] s[(ny * w + nx) * 4 + c] <= m by {}
        lemma_row_gap(s, w, h, c, x, y, ny, lo, n, m, qx);
        lemma_distrib(m, window_weight_sum(w, r, x, y, ylo, (k - 1) as nat), row_weight_sum(x, y, ny, lo, n));
    }
}

/// A pixel that keeps the largest value `m` of its channel through a blur
/// pass has only neighbours of value `m` around it.
proof fn lemma_max_kept(s: Seq<u8>, w: int, h: int, r: int, c: int, m: int, x: int, y: int, qx: int, qy: int)
    requires
        s.len() == buffer_len(w, h),
        0 <= c < 4,
        r >= 1,
        0 <= x < w,
        0 <= y < h,
        0 <= qx < w,
        0 <= qy < h,
        -1 <= qx - x <= 1,
        -1 <= qy - y <= 1,
        forall|px: int, py: int| 0 <= px < w && 0 <= py < h ==> #[trigger] s[(py * w + px) * 4 + c] <= m,
        s[(y * w + x) * 4 + c] == m,
        blurred_byte(s, w, h, r, (y * w + x) * 4 + c) == m,
    ensures
        s[(qy * w + qx) * 4 + c] == m,
{
    let i = (y * w + x) * 4 + c;
    lemma_pixel_in_buffer(x, y, c, w, h);
    lemma_row_of(y * w + x, 4, c);
    lemma_row_of(y, w, x);
    assert(i / 4 == y * w + x && i % 4 == c);
    let ylo = lo_of(y, r);
    let k = (hi_of(y, r, h) - ylo) as nat;
    let den = window_weight_sum(w, r, x, y, ylo, k);
    let num = window_value_sum(s, w, c, r, x, y, ylo, k);
    lemma_window_gap(s, w, h, c, r, x, y, ylo, k, m, x, y);
    assert(dist2(x, y, x, y) == 0);
    assert(weight(0) == WEIGHT_SCALE);
    assert(den >= WEIGHT_SCALE);
    assert(0 <= m <= 255);
    assert(0 <= num / den <= m) by (nonlinear_arith)
        requires
            num <= m * den,
            den > 0,
            num >= 0,
    ;
    assert(num / den == m);
    lemma_window_gap(s, w, h, c, r, x, y, ylo, k, m, qx, qy);
    let vq = s[(qy * w + qx) * 4 + c] as int;
    let dq = dist2(x, y, qx, qy);
    assert(0 <= dq <= 2) by (nonlinear_arith)
        requires
            dq == (qx - x) * (qx - x) + (qy - y) * (qy - y),
            -1 <= qx - x <= 1,
            -1 <= qy - y <= 1,
    ;
    let wq = weight(dq);
    assert(wq >= 1) by {
        assert(weight(0) == 4194304);
        assert(weight(1) == 2097152);
        assert(weight(2) == 4194304int / 3);
        assert(4194304int / 3 >= 1) by (nonlinear_arith);
        assert(dq == 0 || dq == 1 || dq == 2);
    }
    if vq < m {
        assert(num < m * den) by (nonlinear_arith)
            requires
                num + (m - vq) * wq <= m * den,
                vq < m,
                wq >= 1,
        ;
        assert(num / den < m) by (nonlinear_arith)
            requires
                num < m * den,
                den > 0,
        ;
    }
}

proof fn lemma_row_of(q: int, d: int, r: int)
    requires
        d > 0,
        0 <= r < d,
    ensures
        (q * d + r) / d == q,
        (q * d + r) % d == r,
{
    vstd::arithmetic::div_mod::lemma_fundamental_div_mod_converse(q * d + r, d, q, r);
}

proof fn lemma_spread_row(p: spec_fn(int, int) -> bool, w: int, h: int, x0: int, y: int, k: nat)
    requires
        0 <= x0 < w,
        0 <= y < h,
        p(x0, y),
        forall|x: int, y1: int| 0 <= x < w && 0 <= y1 < h && #[trigger] p(x, y1) ==> {
            &&& (x + 1 < w ==> p(x + 1, y1))
            &&& (x > 0 ==> p(x - 1, y1))
            &&& (y1 + 1 < h ==> p(x, y1 + 1))
            &&& (y1 > 0 ==> p(x, y1 - 1))
        },
    ensures
        x0 + k < w ==> p(x0 + k, y),
        x0 - k >= 0 ==> p(x0 - k, y),
    decreases k,
{
    if k > 0 {
        lemma_spread_row(p, w, h, x0, y, (k - 1) as nat);
    }
}

proof fn lemma_spread_col(p: spec_fn(int, int) -> bool, w: int, h: int, x: int, y0: int, k: nat)
    requires
        0 <= x < w,
        0 <= y0 < h,
        p(x, y0),
        forall|x1: int, y: int| 0 <= x1 < w && 0 <= y < h && #[trigger] p(x1, y) ==> {
            &&& (x1 + 1 < w ==> p(x1 + 1, y))
            &&& (x1 > 0 ==> p(x1 - 1, y))
            &&& (y + 1 < h ==> p(x1, y + 1))
            &&& (y > 0 ==> p(x1, y - 1))
        },
    ensures
        y0 + k < h ==> p(x, y0 + k),
        y0 - k >= 0 ==> p(x, y0 - k),
    decreases k,
{
    if k > 0 {
        lemma_spread_col(p, w, h, x, y0, (k - 1) as nat);
    }
}

/// A property of pixels that passes to the four neighbours of every pixel
/// that has it holds of every pixel once one has it.
proof fn lemma_spread(p: spec_fn(int, int) -> bool, w: int, h: int, x0: int, y0: int)
    requires
        0 <= x0 < w,
        0 <= y0 < h,
        p(x0, y0),
        forall|x: int, y: int| 0 <= x < w && 0 <= y < h && #[trigger] p(x, y) ==> {
            &&& (x + 1 < w ==> p(x + 1, y))
            &&& (x > 0 ==> p(x - 1, y))
            &&& (y + 1 < h ==> p(x, y + 1))
            &&& (y > 0 ==> p(x, y - 1))
        },
    ensures
        forall|x: int, y: int| 0 <= x < w && 0 <= y < h ==> #[trigger] p(x, y),
{
    assert forall|x: int, y: int| 0 <= x < w && 0 <= y < h implies #[trigger] p(x, y) by {
        if x >= x0 {
            lemma_spread_row(p, w, h, x0, y0, (x - x0) as nat);
        } else {
            lemma_spread_row(p, w, h, x0, y0, (x0 - x) as nat);
        }
        if y >= y0 {
            lemma_spread_col(p, w, h, x, y0, (y - y0) as nat);
        } else {
            lemma_spread_col(p, w, h, x, y0, (y0 - y) as nat);
        }
    }
}

/// With a half-width of at least one, a blur pass changes at least one byte
/// of every buffer that is not of one uniform colour.
pub proof fn lemma_blur_changes_non_uniform(s: Seq<u8>, w: int, h: int, r: int)
    requires
        s.len() == buffer_len(w, h),
        w >= 0,
        h >= 0,
        r >= 1,
        !is_uniform(s),
    ensures
        blur_pass(s, w, h, r) != s,
{
    if blur_pass(s, w, h, r) == s {
        let j = choose|j: int| 0 <= j < s.len() && #[trigger] s[j] != s[j % 4];
        let c = j % 4;
        lemma_coords(j, w, h);
        assert(w * h >= 1 && (w * h) * 4 == s.len()) by (nonlinear_arith)
            requires
                w > 0,
                h >= 0,
                0 <= j < s.len(),
                s.len() == w * h * 4,
        ;
        let n = (w * h) as nat;
        lemma_channel_max(s, c, n);
        let m = channel_max(s, c, n);
        assert forall|px: int, py: int| 0 <= px < w && 0 <= py < h implies #[trigger] s[(py * w + px) * 4 + c] <= m by {
            lemma_pixel_in_buffer(px, py, c, w, h);
            assert(0 <= py * w + px < w * h) by (nonlinear_arith)
                requires
                    0 <= px < w,
                    0 <= py < h,
            ;
            let q = py * w + px;
            assert(s[q * 4 + c] <= m);
        }
        let pm = choose|p: int| 0 <= p < n && s[#[trigger] (p * 4) + c] == m;
        lemma_fundamental_div_mod(pm, w);
        let mx = pm % w;
        let my = pm / w;
        assert(0 <= my < h) by (nonlinear_arith)
            requires
                pm == w * my + mx,
                0 <= mx < w,
                0 <= pm < w * h,
                w > 0,
        ;
        assert(pm == my * w + mx);
        let pred = |x: int, y: int| s[(y * w + x) * 4 + c] == m;
        assert forall|x: int, y: int| 0 <= x < w && 0 <= y < h && #[trigger] pred(x, y) implies {
            &&& (x + 1 < w ==> pred(x + 1, y))
            &&& (x > 0 ==> pred(x - 1, y))
            &&& (y + 1 < h ==> pred(x, y + 1))
            &&& (y > 0 ==> pred(x, y - 1))
        } by {
            let i = (y * w + x) * 4 + c;
            lemma_pixel_in_buffer(x, y, c, w, h);
            assert(blur_pass(s, w, h, r)[i] == s[i]);
            if x + 1 < w {
                lemma_max_kept(s, w, h, r, c, m, x, y, x + 1, y);
            }
            if x > 0 {
                lemma_max_kept(s, w, h, r, c, m, x, y, x - 1, y);
            }
            if y + 1 < h {
                lemma_max_kept(s, w, h, r, c, m, x, y, x, y + 1);
            }
            if y > 0 {
                lemma_max_kept(s, w, h, r, c, m, x, y, x, y - 1);
            }
        }
        lemma_spread(pred, w, h, mx, my);
        let jx = (j / 4) % w;
        let jy = (j / 4) / w;
        assert(pred(jx, jy));
        assert(pred(0, 0));
        assert((0 * w + 0) * 4 + c == c);
    }
}

/// Pixel coordinates of byte `i` of a buffer lie inside the image.
proof fn lemma_coords(i: int, w: int, h: int)
    requires
        0 <= i < buffer_len(w, h),
        w >= 0,
        h >= 0,
    ensures
        w > 0,
        0 <= (i / 4) % w < w,
        0 <= (i / 4) / w < h,
        i == (((i / 4) / w) * w + (i / 4) % w) * 4 + i % 4,
{
    assert(w > 0) by (nonlinear_arith)
        requires
            0 <= i < w * h * 4,
            w >= 0,
            h >= 0,
    ;
    let p = i / 4;
    lemma_fundamental_div_mod(p, w);
    assert(p < w * h) by (nonlinear_arith)
        requires
            p == i / 4,
            i < w * h * 4,
    ;
    assert(0 <= p / w < h) by (nonlinear_arith)
        requires
            p == w * (p / w) + p % w,
            0 <= p % w < w,
            0 <= p < w * h,
            w > 0,
    ;
}

/// Byte `c` of pixel `(x, y)` lies inside the buffer.
proof fn lemma_pixel_in_buffer(x: int, y: int, c: int, w: int, h: int)
    requires
        0 <= x < w,
        0 <= y < h,
        0 <= c < 4,
    ensures
        0 <= (y * w + x) * 4 + c < buffer_len(w, h),
{
    assert(0 <= (y * w + x) * 4 + c < w * h * 4) by (nonlinear_arith)
        requires
            0 <= x < w,
            0 <= y < h,
            0 <= c < 4,
    ;
}

proof fn lemma_weight_bounds(d2: int)
    requires
        d2 >= 0,
    ensures
        0 <= weight(d2) <= WEIGHT_SCALE,
{
    assert(0 <= WEIGHT_SCALE as int / (1 + d2) <= WEIGHT_SCALE as int) by (nonlinear_arith)
        requires
            d2 >= 0,
    ;
}

proof fn lemma_term_bound(v: int, wt: int)
    requires
        0 <= v <= 255,
        0 <= wt,
    ensures
        0 <= v * wt <= 255 * wt,
{
    assert(0 <= v * wt <= 255 * wt) by (nonlinear_arith)
        requires
            0 <= v <= 255,
            0 <= wt,
    ;
}

/// Channel byte `i` of one blur pass, computed from `data`.
fn blurred_channel(data: &Vec<u8>, width: usize, height: usize, radius: usize, i: usize) -> (r: u8)
    requires
        data@.len() == buffer_len(width as int, height as int),
        i < data@.len(),
        radius <= MAX_RADIUS,
    ensures
        r == blurred_byte(data@, width as int, height as int, radius as int, i as int),
{
    let ghost s = data@;
    let ghost w = width as int;
    let ghost h = height as int;
    let ghost r = radius as int;
    proof {
        lemma_coords(i as int, w, h);
    }
    let p = i / 4;
    let c = i % 4;
    let x = p % width;
    let y = p / width;
    let x_lo = if x >= radius { x - radius } else { 0 };
    let x_hi = if width - x > radius { x + radius + 1 } else { width };
    let y_lo = if y >= radius { y - radius } else { 0 };
    let y_hi = if height - y > radius { y + radius + 1 } else { height };
    let len = data.len();
    let mut num: u64 = 0;
    let mut den: u64 = 0;
    for ny in y_lo..y_hi
        invariant
            s == data@,
            s.len() == buffer_len(w, h),
            s.len() == len,
            w == width,
            h == height,
            r == radius,
            r <= MAX_RADIUS,
            0 <= c < 4,
            x < width,
            y < height,
            x_lo == lo_of(x as int, r),
            x_hi == hi_of(x as int, r, w),
            y_lo == lo_of(y as int, r),
            y_hi == hi_of(y as int, r, h),
            den == window_weight_sum(w, r, x as int, y as int, y_lo as int, (ny - y_lo) as nat),
            num == window_value_sum(s, w, c as int, r, x as int, y as int, y_lo as int, (ny - y_lo) as nat),
            den <= (ny - y_lo) * 2001 * WEIGHT_SCALE,
            num <= 255 * den,
    {
        let ghost den0 = den as int;
        let ghost num0 = num as int;
        for nx in x_lo..x_hi
            invariant
                s == data@,
                s.len() == buffer_len(w, h),
                s.len() == len,
                w == width,
                h == height,
                r == radius,
                r <= MAX_RADIUS,
                0 <= c < 4,
                x < width,
                y < height,
                y_lo <= ny < y_hi,
                x_lo == lo_of(x as int, r),
                x_hi == hi_of(x as int, r, w),
                y_lo == lo_of(y as int, r),
                y_hi == hi_of(y as int, r, h),
                den0 <= (ny - y_lo) * 2001 * WEIGHT_SCALE,
                num0 <= 255 * den0,
                den == den0 + row_weight_sum(x as int, y as int, ny as int, x_lo as int, (nx - x_lo) as nat),
                num == num0 + row_value_sum(s, w, c as int, x as int, y as int, ny as int, x_lo as int, (nx - x_lo) as nat),
                den <= den0 + (nx - x_lo) * WEIGHT_SCALE,
                num - num0 <= 255 * (den - den0),
        {
            let dx: u64 = if nx >= x { (nx - x) as u64 } else { (x - nx) as u64 };
            let dy: u64 = if ny >= y { (ny - y) as u64 } else { (y - ny) as u64 };
            proof {
                assert(dx * dx <= 1000 * 1000 && dy * dy <= 1000 * 1000) by (nonlinear_arith)
                    requires
                        dx <= 1000,
                        dy <= 1000,
                ;
                assert(dx * dx == (nx - x) * (nx - x) && dy * dy == (ny - y) * (ny - y))
                    by (nonlinear_arith)
                    requires
                        dx == nx - x || dx == x - nx,
                        dy == ny - y || dy == y - ny,
                ;
                lemma_weight_bounds(dx * dx + dy * dy);
                lemma_pixel_in_buffer(nx as int, ny as int, c as int, w, h);
            }
            let d2 = dx * dx + dy * dy;
            let wt = WEIGHT_SCALE / (1 + d2);
            let idx = (ny * width + nx) * 4 + c;
            let v = data[idx] as u64;
            proof {
                lemma_term_bound(v as int, wt as int);
            }
            num = num + v * wt;
            den = den + wt;
        }
    }
    assert(den <= 2001 * 2001 * WEIGHT_SCALE);
    if den > 0 {
        assert(num as int / den as int <= 255) by (nonlinear_arith)
            requires
                num <= 255 * den,
                den > 0,
        ;
        (num / den) as u8
    } else {
        data[i]
    }
}

/// One blur pass with neighbourhood half-width `radius` over a `width` x
/// `height` RGBA buffer. Every output byte is computed from the unmodified
/// input; the result replaces the buffer only once the pass is complete.
pub fn apply_blur(data: &mut Vec<u8>, width: usize, height: usize, radius: usize)
    requires
        old(data)@.len() == buffer_len(width as int, height as int),
        radius <= MAX_RADIUS,
    ensures
        final(data)@ == blur_pass(old(data)@, width as int, height as int, radius as int),
        final(data)@.len() == old(data)@.len(),
{
    let len = data.len();
    let mut temp: Vec<u8> = Vec::with_capacity(len);
    for i in 0..len
        invariant
            len == data@.len(),
            data@.len() == buffer_len(width as int, height as int),
            radius <= MAX_RADIUS,
            temp@ == Seq::new(i as nat, |j: int| blurred_byte(data@, width as int, height as int, radius as int, j)),
    {
        let b = blurred_channel(data, width, height, radius, i);
        temp.push(b);
        assert(temp@ =~= Seq::new((i + 1) as nat, |j: int| blurred_byte(data@, width as int, height as int, radius as int, j)));
    }
    assert(temp@ =~= blur_pass(data@, width as int, height as int, radius as int));
    *data = temp;
}

} // verus!
