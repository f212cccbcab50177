//! Gain maps from masks: every mask value has one gain, and rows are padded.

use vstd::prelude::*;

verus! {

/// What the rows of a gain map are padded to.
pub const ROW_ALIGNMENT: usize = 256;

/// The least multiple of `alignment` that is not below `value`.
pub open spec fn aligned(value: int, alignment: int) -> int {
    (value + alignment - 1) / alignment * alignment
}

/// Round up to a multiple of `alignment`.
pub fn align_up(value: usize, alignment: usize) -> (r: usize)
    requires
        alignment > 0,
        value + alignment <= usize::MAX,
    ensures
        r == aligned(value as int, alignment as int),
        value <= r < value + alignment,
        r as int % alignment as int == 0,
{
    let n: usize = (value + alignment - 1) / alignment;
    proof {
        let v = value + alignment - 1;
        vstd::arithmetic::div_mod::lemma_fundamental_div_mod(v, alignment as int);
        vstd::arithmetic::div_mod::lemma_mod_bound(v, alignment as int);
        assert(alignment * n == n * alignment) by (nonlinear_arith);
        vstd::arithmetic::div_mod::lemma_mod_multiples_basic(n as int, alignment as int);
    }
    n * alignment
}

/// A gain map of a mask: the gain of each mask value, in rows that are padded with zeros.
pub open spec fn gains_of(mask: Seq<u8>, width: int, height: int, stride: int, gains: Seq<u8>) -> Seq<u8> {
    let row = aligned(width, ROW_ALIGNMENT as int);
    Seq::new(
        (row * height) as nat,
        |i: int|
            if i % row < width {
                gains[mask[(i / row) * stride + i % row] as int]
            } else {
                0
            },
    )
}

/// Whether a mask has all the rows that it should have.
pub open spec fn mask_fits(len: int, width: int, height: int, stride: int) -> bool {
    width == 0 || height == 0 || (height - 1) * stride + width <= len
}

/// Like `apply_gains`, for any mask: `None` where rows are missing or a size does not fit.
pub fn try_apply_gains(mask: &[u8], width: usize, height: usize, stride: usize, gains: &[u8; 256]) -> (r: Option<
    Vec<u8>,
>)
    ensures
        r is Some <==> width + 256 <= usize::MAX && mask_fits(
            mask@.len() as int,
            width as int,
            height as int,
            stride as int,
        ) && aligned(width as int, 256) * height <= usize::MAX,
        r matches Some(g) ==> g@ == gains_of(
            mask@,
            width as int,
            height as int,
            stride as int,
            gains@,
        ),
{
    if width > usize::MAX - 256 {
        return None;
    }
    let row: usize = align_up(width, ROW_ALIGNMENT);
    let len: usize = mask.len();
    if width > 0 && height > 0 {
        let last: usize = match (height - 1).checked_mul(stride) {
            None => {
                assert((height - 1) * stride > mask@.len());
                return None;
            },
            Some(v) => v,
        };
        if last > len || width > len - last {
            return None;
        }
    }
    let total: usize = match row.checked_mul(height) {
        None => {
            return None;
        },
        Some(v) => v,
    };
    let ghost all = gains_of(mask@, width as int, height as int, stride as int, gains@);
    let mut out: Vec<u8> = Vec::new();
    let mut y: usize = 0;
    assert(0 * row == 0) by (nonlinear_arith);
    while y < height
        invariant
            y <= height,
            len == mask@.len(),
            row == aligned(width as int, 256),
            width <= row,
            row == 0 ==> width == 0,
            total == row * height,
            mask_fits(mask@.len() as int, width as int, height as int, stride as int),
            all == gains_of(mask@, width as int, height as int, stride as int, gains@),
            out@.len() == y * row,
            forall|i: int| 0 <= i < y * row ==> #[trigger] out@[i] == all[i],
        decreases height - y,
    {
        proof {
            assert((y + 1) * row == y * row + row) by (nonlinear_arith);
            assert((y + 1) * row <= height * row) by (nonlinear_arith)
                requires
                    y + 1 <= height,
            ;
            assert(height * row == row * height) by (nonlinear_arith);
        }
        let mut x: usize = 0;
        while x < row
            invariant
                y < height,
                len == mask@.len(),
                x <= row,
                row == aligned(width as int, 256),
                (y + 1) * row == y * row + row,
                (y + 1) * row <= row * height,
                mask_fits(mask@.len() as int, width as int, height as int, stride as int),
                all == gains_of(mask@, width as int, height as int, stride as int, gains@),
                out@.len() == y * row + x,
                forall|i: int| 0 <= i < y * row + x ==> #[trigger] out@[i] == all[i],
            decreases row - x,
        {
            proof {
                vstd::arithmetic::div_mod::lemma_fundamental_div_mod_converse(
                    y * row + x,
                    row as int,
                    y as int,
                    x as int,
                );
            }
            let v: u8 = if x < width {
                assert(0 <= y * stride <= (height - 1) * stride) by (nonlinear_arith)
                    requires
                        y <= height - 1,
                ;
                gains[mask[y * stride + x] as usize]
            } else {
                0
            };
            out.push(v);
            x = x + 1;
        }
        y = y + 1;
    }
    assert(height * row == row * height) by (nonlinear_arith);
    assert(out@ =~= all);
    Some(out)
}

/// Turn a mask into a gain map: each mask value is looked up in `gains`, and each row is
/// padded to a multiple of 256 bytes.
pub fn apply_gains(mask: &[u8], width: usize, height: usize, stride: usize, gains: &[u8; 256]) -> (r: Vec<
    u8,
>)
    requires
        width + 256 <= usize::MAX,
        mask_fits(mask@.len() as int, width as int, height as int, stride as int),
        aligned(width as int, 256) * height <= usize::MAX,
    ensures
        r@ == gains_of(mask@, width as int, height as int, stride as int, gains@),
{
    try_apply_gains(mask, width, height, stride, gains).unwrap()
}

/// Equal mask values have equal gains, and padding has none.
pub proof fn gains_depend_on_mask_values(
    mask: Seq<u8>,
    width: int,
    height: int,
    stride: int,
    gains: Seq<u8>,
    x: int,
    y: int,
)
    requires
        0 <= width,
        0 <= x < aligned(width, 256),
        0 <= y < height,
    ensures
        y * aligned(width, 256) + x < gains_of(mask, width, height, stride, gains).len(),
        x < width ==> gains_of(mask, width, height, stride, gains)[y * aligned(width, 256) + x]
            == gains[mask[y * stride + x] as int],
        x >= width ==> gains_of(mask, width, height, stride, gains)[y * aligned(width, 256) + x] == 0,
{
    let row = aligned(width, 256);
    vstd::arithmetic::div_mod::lemma_fundamental_div_mod_converse(y * row + x, row, y, x);
    assert((y + 1) * row == y * row + row && (y + 1) * row <= height * row && 0 <= y * row)
        by (nonlinear_arith)
        requires
            0 <= y,
            y + 1 <= height,
            0 <= row,
    ;
    assert(height * row == row * height) by (nonlinear_arith);
}

} // verus!
