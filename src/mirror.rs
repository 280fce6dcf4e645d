//! Mirror kernels: whole-pixel reversal of every row, and reversal of the
//! order of rows. Both are permutations of the buffer and their own inverse.
use vstd::prelude::*;
use vstd::arithmetic::div_mod::{lemma_fundamental_div_mod, lemma_fundamental_div_mod_converse};
use crate::abi::buffer_len;

verus! {

/// Source index of byte `i` after a horizontal mirror of rows `width` pixels wide.
pub open spec fn mirror_h_index(i: int, width: int) -> int {
    let rs = width * 4;
    let k = i % rs;
    (i / rs) * rs + (width - 1 - k / 4) * 4 + k % 4
}

/// Source index of byte `i` after a vertical mirror of `height` rows.
pub open spec fn mirror_v_index(i: int, width: int, height: int) -> int {
    let rs = width * 4;
    (height - 1 - i / rs) * rs + i % rs
}

/// The buffer with the pixels of every row in reverse order.
pub open spec fn mirror_h(s: Seq<u8>, width: int) -> Seq<u8> {
    Seq::new(s.len(), |i: int| s[mirror_h_index(i, width)])
}

/// The buffer with its rows in reverse order.
pub open spec fn mirror_v(s: Seq<u8>, width: int, height: int) -> Seq<u8> {
    Seq::new(s.len(), |i: int| s[mirror_v_index(i, width, height)])
}

proof fn lemma_row_of(q: int, d: int, r: int)
    requires
        d > 0,
        0 <= r < d,
    ensures
        (q * d + r) / d == q,
        (q * d + r) % d == r,
{
    lemma_fundamental_div_mod_converse(q * d + r, d, q, r);
}

proof fn lemma_split_index(i: int, width: int, height: int)
    requires
        0 <= i < buffer_len(width, height),
        width >= 0,
        height >= 0,
    ensures
        width > 0,
        0 <= i / (width * 4) < height,
        0 <= i % (width * 4) < width * 4,
        i == (i / (width * 4)) * (width * 4) + i % (width * 4),
{
    assert(width > 0) by (nonlinear_arith)
        requires
            0 <= i < width * height * 4,
            width >= 0,
            height >= 0,
    ;
    let rs = width * 4;
    lemma_fundamental_div_mod(i, rs);
    let y = i / rs;
    let k = i % rs;
    assert(0 <= y < height) by (nonlinear_arith)
        requires
            i == rs * y + k,
            0 <= k < rs,
            0 <= i < width * height * 4,
            rs == width * 4,
            rs > 0,
    ;
}

/// The horizontal source index stays in the buffer and undoes itself.
pub proof fn lemma_mirror_h_index(i: int, width: int, height: int)
    requires
        0 <= i < buffer_len(width, height),
        width >= 0,
        height >= 0,
    ensures
        0 <= mirror_h_index(i, width) < buffer_len(width, height),
        mirror_h_index(mirror_h_index(i, width), width) == i,
{
    lemma_split_index(i, width, height);
    let rs = width * 4;
    let y = i / rs;
    let k = i % rs;
    let k2 = (width - 1 - k / 4) * 4 + k % 4;
    assert(0 <= k2 < rs);
    lemma_row_of(y, rs, k2);
    let j = y * rs + k2;
    assert(mirror_h_index(i, width) == j);
    assert(mirror_h_index(j, width) == y * rs + k);
    assert(y * rs + rs <= height * rs && 0 <= y * rs) by (nonlinear_arith)
        requires
            0 <= y < height,
            rs > 0,
    ;
    assert(width * height * 4 == height * rs) by (nonlinear_arith)
        requires
            rs == width * 4,
    ;
}

/// The vertical source index stays in the buffer and undoes itself.
pub proof fn lemma_mirror_v_index(i: int, width: int, height: int)
    requires
        0 <= i < buffer_len(width, height),
        width >= 0,
        height >= 0,
    ensures
        0 <= mirror_v_index(i, width, height) < buffer_len(width, height),
        mirror_v_index(mirror_v_index(i, width, height), width, height) == i,
{
    lemma_split_index(i, width, height);
    let rs = width * 4;
    let y = i / rs;
    let k = i % rs;
    lemma_row_of(height - 1 - y, rs, k);
    assert((height - 1 - y) * rs + rs <= height * rs) by (nonlinear_arith)
        requires
            0 <= y,
            rs > 0,
    ;
    assert(0 <= (height - 1 - y) * rs) by (nonlinear_arith)
        requires
            y < height,
            rs > 0,
    ;
    assert(width * height * 4 == height * rs) by (nonlinear_arith)
        requires
            rs == width * 4,
    ;
}

/// Mirroring every row twice gives back the buffer.
pub proof fn lemma_mirror_h_involution(s: Seq<u8>, width: int, height: int)
    requires
        s.len() == buffer_len(width, height),
        width >= 0,
        height >= 0,
    ensures
        mirror_h(mirror_h(s, width), width) == s,
{
    let m = mirror_h(s, width);
    assert forall|i: int| 0 <= i < s.len() implies #[trigger] mirror_h(m, width)[i] == s[i] by {
        lemma_mirror_h_index(i, width, height);
    }
    assert(mirror_h(m, width) =~= s);
}

/// Reversing the order of rows twice gives back the buffer.
pub proof fn lemma_mirror_v_involution(s: Seq<u8>, width: int, height: int)
    requires
        s.len() == buffer_len(width, height),
        width >= 0,
        height >= 0,
    ensures
        mirror_v(mirror_v(s, width, height), width, height) == s,
{
    let m = mirror_v(s, width, height);
    assert forall|i: int| 0 <= i < s.len() implies #[trigger] mirror_v(m, width, height)[i]
        == s[i] by {
        lemma_mirror_v_index(i, width, height);
    }
    assert(mirror_v(m, width, height) =~= s);
}

fn swap_bytes(data: &mut Vec<u8>, a: usize, b: usize)
    requires
        a < old(data)@.len(),
        b < old(data)@.len(),
    ensures
        final(data)@ == old(data)@.update(a as int, old(data)@[b as int]).update(
            b as int,
            old(data)@[a as int],
        ),
{
    let va = data[a];
    let vb = data[b];
    data.set(a, vb);
    data.set(b, va);
}

proof fn lemma_row_bounds(y: int, width: int, height: int)
    requires
        0 <= y < height,
        width >= 0,
    ensures
        0 <= y * (width * 4),
        y * (width * 4) + width * 4 <= buffer_len(width, height),
{
    assert(0 <= y * (width * 4) && y * (width * 4) + width * 4 <= width * height * 4)
        by (nonlinear_arith)
        requires
            0 <= y < height,
            width >= 0,
    ;
}

/// Whether byte `k` of a row has been exchanged once the pixels before `x`
/// (and their partners) and the first `c` channels of pixel `x` are done.
spec fn h_done(k: int, width: int, x: int, c: int) -> bool {
    k / 4 < x || k / 4 > width - 1 - x || ((k / 4 == x || k / 4 == width - 1 - x) && k % 4 < c)
}

/// Byte `i` of the row starting at `row_start` while that row is mirrored.
spec fn h_progress(orig: Seq<u8>, row_start: int, width: int, i: int, done: bool) -> u8 {
    let k = i - row_start;
    if done {
        orig[row_start + (width - 1 - k / 4) * 4 + k % 4]
    } else {
        orig[i]
    }
}

/// Reverses the order of the pixels of every row of a `width` x `height`
/// RGBA buffer; with an odd width the centre pixel stays where it is.
pub fn mirror_horizontal(data: &mut Vec<u8>, width: usize, height: usize)
    requires
        old(data)@.len() == buffer_len(width as int, height as int),
    ensures
        final(data)@ == mirror_h(old(data)@, width as int),
{
    let ghost orig = data@;
    let ghost w = width as int;
    let ghost rs = w * 4;
    let len = data.len();
    assert(0 * rs == 0);
    for y in 0..height
        invariant
            data@.len() == orig.len(),
            orig.len() == len,
            orig.len() == buffer_len(w, height as int),
            w == width,
            rs == w * 4,
            forall|i: int| 0 <= i < y * rs ==> #[trigger] data@[i] == orig[mirror_h_index(i, w)],
            forall|i: int| y * rs <= i < orig.len() ==> #[trigger] data@[i] == orig[i],
    {
        proof {
            lemma_row_bounds(y as int, w, height as int);
        }
        let row_size = width * 4;
        assert(y * row_size == y * rs);
        let row_start = y * row_size;
        let half = width / 2;
        for x in 0..half
            invariant
                data@.len() == orig.len(),
                orig.len() == len,
                w == width,
                rs == w * 4,
                row_size == rs,
                row_start == y * rs,
                half == w / 2,
                0 <= row_start,
                row_start + rs <= orig.len(),
                forall|i: int| 0 <= i < row_start ==> #[trigger] data@[i] == orig[mirror_h_index(i, w)],
                forall|i: int| row_start + rs <= i < orig.len() ==> #[trigger] data@[i] == orig[i],
                forall|i: int|
                    row_start <= i < row_start + rs ==> #[trigger] data@[i] == h_progress(
                        orig,
                        row_start as int,
                        w,
                        i,
                        h_done(i - row_start, w, x as int, 0),
                    ),
        {
            let left = x * 4;
            let right = (width - 1 - x) * 4;
            for c in 0..4usize
                invariant
                    data@.len() == orig.len(),
                    orig.len() == len,
                    w == width,
                    rs == w * 4,
                    row_size == rs,
                    row_start == y * rs,
                    0 <= row_start,
                    row_start + rs <= orig.len(),
                    x < half,
                    half == w / 2,
                    left == x * 4,
                    right == (w - 1 - x) * 4,
                    forall|i: int| 0 <= i < row_start ==> #[trigger] data@[i] == orig[mirror_h_index(i, w)],
                    forall|i: int| row_start + rs <= i < orig.len() ==> #[trigger] data@[i] == orig[i],
                    forall|i: int|
                        row_start <= i < row_start + rs ==> #[trigger] data@[i] == h_progress(
                            orig,
                            row_start as int,
                            w,
                            i,
                            h_done(i - row_start, w, x as int, c as int),
                        ),
            {
                let ghost before = data@;
                let a = row_start + left + c;
                let b = row_start + right + c;
                assert(before[a as int] == orig[a as int]);
                assert(before[b as int] == orig[b as int]);
                swap_bytes(data, a, b);
                assert forall|i: int| row_start <= i < row_start + rs implies #[trigger] data@[i]
                    == h_progress(orig, row_start as int, w, i, h_done(i - row_start, w, x as int, c + 1)) by {
                    let k = i - row_start;
                    assert(k == (k / 4) * 4 + k % 4);
                    assert((left + c) / 4 == x && (left + c) % 4 == c);
                    assert((right + c) / 4 == w - 1 - x && (right + c) % 4 == c);
                    if i != a && i != b {
                        assert(data@[i] == before[i]);
                    }
                }
            }
        }
        assert((y + 1) * rs == y * rs + rs) by (nonlinear_arith);
        assert forall|i: int| 0 <= i < (y + 1) * rs implies #[trigger] data@[i] == orig[mirror_h_index(i, w)] by {
            if i >= row_start {
                let k = i - row_start;
                assert(k == (k / 4) * 4 + k % 4);
                lemma_row_of(y as int, rs, k);
            }
        }
    }
    assert(data@ =~= mirror_h(orig, w)) by {
        assert forall|i: int| 0 <= i < orig.len() implies data@[i] == mirror_h(orig, w)[i] by {
            assert(i < height * rs) by (nonlinear_arith)
                requires
                    i < w * height * 4,
                    rs == w * 4,
            ;
        }
    }
}

/// Reverses the order of the rows of a `width` x `height` RGBA buffer; with
/// an odd height the centre row stays where it is.
pub fn mirror_vertical(data: &mut Vec<u8>, width: usize, height: usize)
    requires
        old(data)@.len() == buffer_len(width as int, height as int),
    ensures
        final(data)@ == mirror_v(old(data)@, width as int, height as int),
{
    let ghost orig = data@;
    let ghost w = width as int;
    let ghost h = height as int;
    let ghost rs = w * 4;
    let len = data.len();
    assert(0 * rs == 0 && (h - 0) * rs == h * rs);
    assert(h * rs == w * h * 4) by (nonlinear_arith)
        requires
            rs == w * 4,
    ;
    let half = height / 2;
    for y in 0..half
        invariant
            data@.len() == orig.len(),
            orig.len() == len,
            orig.len() == buffer_len(w, h),
            w == width,
            h == height,
            half == h / 2,
            rs == w * 4,
            h * rs == orig.len(),
            forall|i: int| 0 <= i < y * rs ==> #[trigger] data@[i] == orig[mirror_v_index(i, w, h)],
            forall|i: int|
                (h - y) * rs <= i < orig.len() ==> #[trigger] data@[i] == orig[mirror_v_index(i, w, h)],
            forall|i: int| y * rs <= i < (h - y) * rs ==> #[trigger] data@[i] == orig[i],
    {
        let ghost yb = h - 1 - y;
        proof {
            lemma_row_bounds(y as int, w, h);
            lemma_row_bounds(yb, w, h);
            assert((h - y) * rs == yb * rs + rs && (y + 1) * rs == y * rs + rs && (h - (y + 1)) * rs
                == yb * rs && y * rs + rs <= yb * rs) by (nonlinear_arith)
                requires
                    yb == h - 1 - y,
                    y + 1 <= yb,
                    rs >= 0,
            ;
        }
        let row_size = width * 4;
        assert(y * row_size == y * rs && (height - 1 - y) * row_size == yb * rs);
        let top = y * row_size;
        let bottom = (height - 1 - y) * row_size;
        for k in 0..row_size
            invariant
                data@.len() == orig.len(),
                orig.len() == len,
                row_size == rs,
                top == y * rs,
                bottom == yb * rs,
                top + rs <= bottom,
                bottom + rs <= orig.len(),
                (h - y) * rs == bottom + rs,
                forall|i: int| 0 <= i < top ==> #[trigger] data@[i] == orig[mirror_v_index(i, w, h)],
                forall|i: int|
                    bottom + rs <= i < orig.len() ==> #[trigger] data@[i] == orig[mirror_v_index(i, w, h)],
                forall|i: int| top + rs <= i < bottom ==> #[trigger] data@[i] == orig[i],
                forall|i: int|
                    top <= i < top + rs ==> #[trigger] data@[i] == if i - top < k {
                        orig[bottom + (i - top)]
                    } else {
                        orig[i]
                    },
                forall|i: int|
                    bottom <= i < bottom + rs ==> #[trigger] data@[i] == if i - bottom < k {
                        orig[top + (i - bottom)]
                    } else {
                        orig[i]
                    },
        {
            swap_bytes(data, top + k, bottom + k);
        }
        assert forall|i: int| 0 <= i < (y + 1) * rs implies #[trigger] data@[i] == orig[mirror_v_index(
            i,
            w,
            h,
        )] by {
            if i >= top {
                lemma_row_of(y as int, rs, i - top);
            }
        }
        assert forall|i: int| (h - (y + 1)) * rs <= i < orig.len() implies #[trigger] data@[i]
            == orig[mirror_v_index(i, w, h)] by {
            if i < bottom + rs {
                lemma_row_of(yb, rs, i - bottom);
            }
        }
    }
    assert(data@ =~= mirror_v(orig, w, h)) by {
        assert forall|i: int| 0 <= i < orig.len() implies data@[i] == mirror_v(orig, w, h)[i] by {
            if half * rs <= i < (h - half) * rs {
                assert(h - half == half + 1);
                assert((half + 1) * rs == half * rs + rs) by (nonlinear_arith);
                lemma_row_of(half as int, rs, i - half * rs);
            }
        }
    }
}

} // verus!
