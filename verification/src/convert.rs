//! Conversions between packed pixels and planar I420.

use vstd::prelude::*;

use crate::proto::push_bytes;

verus! {

/// `x` moved into the range from `lo` to `hi`.
pub open spec fn clamped(x: int, lo: int, hi: int) -> int {
    if x < lo {
        lo
    } else if x > hi {
        hi
    } else {
        x
    }
}

/// BT.601 limited-range luma of a colour.
pub open spec fn luma(r: int, g: int, b: int) -> int {
    clamped((66 * r + 129 * g + 25 * b + 128) / 256 + 16, 16, 235)
}

/// BT.601 limited-range blue difference of a colour.
pub open spec fn chroma_u(r: int, g: int, b: int) -> int {
    clamped((-38 * r - 74 * g + 112 * b + 128) / 256 + 128, 16, 240)
}

/// BT.601 limited-range red difference of a colour.
pub open spec fn chroma_v(r: int, g: int, b: int) -> int {
    clamped((112 * r - 94 * g - 18 * b + 128) / 256 + 128, 16, 240)
}

/// Where the blue byte of a BGRA pixel lies; green and red follow it.
pub open spec fn bgra_offset(width: int, row: int, col: int) -> int {
    (row * width + col) * 4
}

/// Luma of one pixel of a BGRA image.
pub open spec fn luma_at(bgra: Seq<u8>, width: int, row: int, col: int) -> int {
    let s = bgra_offset(width, row, col);
    luma(bgra[s + 2] as int, bgra[s + 1] as int, bgra[s] as int)
}

/// Blue difference of one pixel of a BGRA image.
pub open spec fn u_at(bgra: Seq<u8>, width: int, row: int, col: int) -> int {
    let s = bgra_offset(width, row, col);
    chroma_u(bgra[s + 2] as int, bgra[s + 1] as int, bgra[s] as int)
}

/// Red difference of one pixel of a BGRA image.
pub open spec fn v_at(bgra: Seq<u8>, width: int, row: int, col: int) -> int {
    let s = bgra_offset(width, row, col);
    chroma_v(bgra[s + 2] as int, bgra[s + 1] as int, bgra[s] as int)
}

/// The luma plane of a BGRA image: a sample for each pixel, row by row.
pub open spec fn luma_plane(bgra: Seq<u8>, width: int, height: int) -> Seq<u8> {
    Seq::new(
        (width * height) as nat,
        |n: int| luma_at(bgra, width, n / width, n % width) as u8,
    )
}

/// The blue differences of a BGRA image: a sample for each block of two by two
/// pixels, row by row, which is that of the block's upper left pixel. A last row or
/// column that fills no block has none.
pub open spec fn u_plane(bgra: Seq<u8>, width: int, height: int) -> Seq<u8> {
    let w = width / 2;
    Seq::new(
        (w * (height / 2)) as nat,
        |k: int| u_at(bgra, width, 2 * (k / w), 2 * (k % w)) as u8,
    )
}

/// The red differences of a BGRA image, block by block as the blue ones.
pub open spec fn v_plane(bgra: Seq<u8>, width: int, height: int) -> Seq<u8> {
    let w = width / 2;
    Seq::new(
        (w * (height / 2)) as nat,
        |k: int| v_at(bgra, width, 2 * (k / w), 2 * (k % w)) as u8,
    )
}

/// The I420 image of a BGRA image: its three planes, one behind the other.
pub open spec fn i420(bgra: Seq<u8>, width: int, height: int) -> Seq<u8> {
    luma_plane(bgra, width, height) + u_plane(bgra, width, height) + v_plane(bgra, width, height)
}

/// A place in a grid, counted row by row, lies in that row and that column.
proof fn lemma_place(width: int, height: int, row: int, col: int)
    requires
        0 <= row < height,
        0 <= col < width,
    ensures
        0 <= row * width,
        0 <= row * width + col < width * height,
        (row * width + col) / width == row,
        (row * width + col) % width == col,
{
    assert(row * width + col < width * height) by (nonlinear_arith)
        requires
            0 <= row < height,
            0 <= col < width,
    ;
    assert(0 <= row * width) by (nonlinear_arith)
        requires
            0 <= row,
            0 <= width,
    ;
    vstd::arithmetic::div_mod::lemma_fundamental_div_mod_converse(
        row * width + col,
        width,
        row,
        col,
    );
}

/// `x` divided by 256, rounded down.
fn scale_down(x: i32) -> (q: i32)
    ensures
        q == x as int / 256,
{
    let q: i32 = x >> 8;
    assert(q * 256 <= x && x < q * 256 + 256) by (bit_vector)
        requires
            q == x >> 8,
    ;
    q
}

fn clamp_to(x: i32, lo: i32, hi: i32) -> (y: i32)
    ensures
        y == clamped(x as int, lo as int, hi as int),
{
    if x < lo {
        lo
    } else if x > hi {
        hi
    } else {
        x
    }
}

/// Appends the luma plane of a BGRA image.
fn push_luma(out: &mut Vec<u8>, bgra: &[u8], width: usize, height: usize)
    requires
        width * height * 4 <= bgra@.len() + 1,
    ensures
        final(out)@ == old(out)@ + luma_plane(bgra@, width as int, height as int),
{
    let ghost w = width as int;
    let ghost h = height as int;
    let ghost plane = luma_plane(bgra@, w, h);
    assert(bgra@.len() == bgra.len());
    assert(0 <= w * h && 0 * w == 0) by (nonlinear_arith)
        requires
            0 <= w,
            0 <= h,
    ;
    assert(out@ =~= old(out)@ + plane.take(0));
    let mut row: usize = 0;
    while row < height
        invariant
            w == width,
            h == height,
            row <= height,
            w * h * 4 <= bgra@.len() + 1,
            bgra@.len() <= usize::MAX,
            plane == luma_plane(bgra@, w, h),
            0 <= row * w <= w * h,
            out@ == old(out)@ + plane.take(row * w),
        decreases height - row,
    {
        let mut col: usize = 0;
        while col < width
            invariant
                w == width,
                h == height,
                row < height,
                col <= width,
                w * h * 4 <= bgra@.len() + 1,
                bgra@.len() <= usize::MAX,
                plane == luma_plane(bgra@, w, h),
                0 <= row * w + col <= w * h,
                out@ == old(out)@ + plane.take(row * w + col),
            decreases width - col,
        {
            proof {
                lemma_place(w, h, row as int, col as int);
            }
            let s: usize = (row * width + col) * 4;
            let b: i32 = bgra[s] as i32;
            let g: i32 = bgra[s + 1] as i32;
            let r: i32 = bgra[s + 2] as i32;
            // BT.601 limited range
            let y: i32 = clamp_to(scale_down(66 * r + 129 * g + 25 * b + 128) + 16, 16, 235);
            out.push(y as u8);
            proof {
                let n = row * w + col;
                assert(plane[n] == y as u8);
                assert(plane.take(n + 1) =~= plane.take(n).push(y as u8));
                assert(out@ =~= old(out)@ + plane.take(n + 1));
            }
            col = col + 1;
        }
        assert((row + 1) * w == row * w + w) by (nonlinear_arith);
        assert((row + 1) * w <= w * h) by (nonlinear_arith)
            requires
                row + 1 <= h,
                0 <= w,
        ;
        row = row + 1;
    }
    assert(h * w == w * h) by (nonlinear_arith);
    assert(plane.take(w * h) =~= plane);
}

/// The two chroma planes of a BGRA image.
fn chroma_planes(bgra: &[u8], width: usize, height: usize) -> (r: (Vec<u8>, Vec<u8>))
    requires
        width * height * 4 <= bgra@.len() + 1,
    ensures
        r.0@ == u_plane(bgra@, width as int, height as int),
        r.1@ == v_plane(bgra@, width as int, height as int),
{
    let ghost w = width as int;
    let ghost h = height as int;
    let ghost us = u_plane(bgra@, w, h);
    let ghost vs = v_plane(bgra@, w, h);
    let columns: usize = width / 2;
    let rows: usize = height / 2;
    let ghost blocks = columns * rows;
    assert(bgra@.len() == bgra.len());
    assert(0 <= blocks && 0 * columns == 0) by (nonlinear_arith)
        requires
            blocks == columns * rows,
            0 <= columns,
            0 <= rows,
    ;
    let mut u_out: Vec<u8> = Vec::new();
    let mut v_out: Vec<u8> = Vec::new();
    assert(u_out@ =~= us.take(0));
    assert(v_out@ =~= vs.take(0));
    let mut i: usize = 0;
    while i < rows
        invariant
            w == width,
            h == height,
            columns == w / 2,
            rows == h / 2,
            blocks == columns * rows,
            i <= rows,
            w * h * 4 <= bgra@.len() + 1,
            bgra@.len() <= usize::MAX,
            us == u_plane(bgra@, w, h),
            vs == v_plane(bgra@, w, h),
            0 <= i * columns <= blocks,
            u_out@ == us.take(i * columns),
            v_out@ == vs.take(i * columns),
        decreases rows - i,
    {
        let mut j: usize = 0;
        while j < columns
            invariant
                w == width,
                h == height,
                columns == w / 2,
                rows == h / 2,
                blocks == columns * rows,
                i < rows,
                j <= columns,
                w * h * 4 <= bgra@.len() + 1,
                bgra@.len() <= usize::MAX,
                us == u_plane(bgra@, w, h),
                vs == v_plane(bgra@, w, h),
                0 <= i * columns + j <= blocks,
                u_out@ == us.take(i * columns + j),
                v_out@ == vs.take(i * columns + j),
            decreases columns - j,
        {
            proof {
                lemma_place(columns as int, rows as int, i as int, j as int);
                lemma_place(w, h, 2 * i, 2 * j);
            }
            let s: usize = (2 * i * width + 2 * j) * 4;
            let b: i32 = bgra[s] as i32;
            let g: i32 = bgra[s + 1] as i32;
            let r: i32 = bgra[s + 2] as i32;
            // BT.601 limited range
            let u: i32 = clamp_to(scale_down(-38 * r - 74 * g + 112 * b + 128) + 128, 16, 240);
            let v: i32 = clamp_to(scale_down(112 * r - 94 * g - 18 * b + 128) + 128, 16, 240);
            u_out.push(u as u8);
            v_out.push(v as u8);
            proof {
                let k = i * columns + j;
                assert(us[k] == u as u8);
                assert(vs[k] == v as u8);
                assert(u_out@ =~= us.take(k + 1));
                assert(v_out@ =~= vs.take(k + 1));
            }
            j = j + 1;
        }
        assert((i + 1) * columns == i * columns + columns) by (nonlinear_arith);
        assert((i + 1) * columns <= blocks) by (nonlinear_arith)
            requires
                blocks == columns * rows,
                i + 1 <= rows,
                0 <= columns,
        ;
        i = i + 1;
    }
    proof {
        assert(rows * columns == columns * rows) by (nonlinear_arith);
        assert(us.take(blocks) =~= us);
        assert(vs.take(blocks) =~= vs);
    }
    (u_out, v_out)
}

/// BGRA (4 bytes per pixel, row-major) to planar I420 (Y, U and V, 4:2:0
/// subsampled): the Y plane (`width * height` samples), then the U plane
/// (`width / 2` times `height / 2`), then the V plane (as many). The alpha bytes are
/// not read, so that the very last one may be missing.
pub fn bgra_to_i420(bgra: &[u8], width: usize, height: usize) -> (out: Vec<u8>)
    requires
        width * height * 4 <= bgra@.len() + 1,
    ensures
        out@ == i420(bgra@, width as int, height as int),
{
    let mut out: Vec<u8> = Vec::new();
    push_luma(&mut out, bgra, width, height);
    let (us, vs) = chroma_planes(bgra, width, height);
    push_bytes(&mut out, us.as_slice());
    push_bytes(&mut out, vs.as_slice());
    assert(out@ =~= i420(bgra@, width as int, height as int));
    out
}

/// The sample of a plane at a row and a column, as a number.
pub open spec fn sample(plane: Seq<u8>, stride: int, row: int, col: int) -> int {
    plane[row * stride + col] as int
}

/// The XRGB pixel (0x00RRGGBB) of BT.601 limited-range samples.
pub open spec fn xrgb(y: int, u: int, v: int) -> int {
    let r = clamped((298 * (y - 16) + 409 * (v - 128) + 128) / 256, 0, 255);
    let g = clamped((298 * (y - 16) - 100 * (u - 128) - 208 * (v - 128) + 128) / 256, 0, 255);
    let b = clamped((298 * (y - 16) + 516 * (u - 128) + 128) / 256, 0, 255);
    r * 0x1_0000 + g * 0x100 + b
}

/// The XRGB pixel at a row and a column of three planes, of which the two chroma
/// planes have half the resolution of the luma plane both ways.
pub open spec fn xrgb_at(
    y_plane: Seq<u8>,
    y_stride: int,
    u_plane: Seq<u8>,
    u_stride: int,
    v_plane: Seq<u8>,
    v_stride: int,
    row: int,
    col: int,
) -> int {
    xrgb(
        sample(y_plane, y_stride, row, col),
        sample(u_plane, u_stride, row / 2, col / 2),
        sample(v_plane, v_stride, row / 2, col / 2),
    )
}

/// The XRGB pixels of three planes, row by row.
pub open spec fn is_xrgb_image(
    pixels: Seq<u32>,
    y_plane: Seq<u8>,
    y_stride: int,
    u_plane: Seq<u8>,
    u_stride: int,
    v_plane: Seq<u8>,
    v_stride: int,
    width: int,
    height: int,
) -> bool {
    &&& pixels.len() == width * height
    &&& forall|row: int, col: int|
        0 <= row < height && 0 <= col < width ==> pixels[row * width + col] == #[trigger] xrgb_at(
            y_plane,
            y_stride,
            u_plane,
            u_stride,
            v_plane,
            v_stride,
            row,
            col,
        )
}

/// A plane of `rows` by `cols` samples with that stride lies inside `plane`.
pub open spec fn plane_covers(plane: Seq<u8>, stride: int, rows: int, cols: int) -> bool {
    (rows - 1) * stride + cols <= plane.len()
}

proof fn lemma_sample_in_range(
    plane: Seq<u8>,
    stride: int,
    rows: int,
    cols: int,
    row: int,
    col: int,
)
    requires
        plane_covers(plane, stride, rows, cols),
        0 <= stride,
        0 <= row < rows,
        0 <= col < cols,
    ensures
        0 <= row * stride,
        0 <= row * stride + col < plane.len(),
{
    assert(0 <= row * stride <= (rows - 1) * stride) by (nonlinear_arith)
        requires
            0 <= stride,
            0 <= row < rows,
    ;
}

/// Planar I420, with a stride for each plane, to XRGB pixels (0x00RRGGBB).
pub fn i420_strided_to_xrgb(
    y_plane: &[u8],
    y_stride: usize,
    u_plane: &[u8],
    u_stride: usize,
    v_plane: &[u8],
    v_stride: usize,
    width: usize,
    height: usize,
) -> (out: Vec<u32>)
    requires
        width * height * 4 <= isize::MAX,
        width > 0 && height > 0 ==> {
            &&& plane_covers(y_plane@, y_stride as int, height as int, width as int)
            &&& plane_covers(
                u_plane@,
                u_stride as int,
                (height + 1) / 2,
                (width + 1) / 2,
            )
            &&& plane_covers(
                v_plane@,
                v_stride as int,
                (height + 1) / 2,
                (width + 1) / 2,
            )
        },
    ensures
        is_xrgb_image(
            out@,
            y_plane@,
            y_stride as int,
            u_plane@,
            u_stride as int,
            v_plane@,
            v_stride as int,
            width as int,
            height as int,
        ),
{
    let ghost w = width as int;
    let ghost h = height as int;
    let ghost want = |row: int, col: int|
        xrgb_at(
            y_plane@,
            y_stride as int,
            u_plane@,
            u_stride as int,
            v_plane@,
            v_stride as int,
            row,
            col,
        );
    assert(0 <= w * h) by (nonlinear_arith)
        requires
            0 <= w,
            0 <= h,
    ;
    assert(y_plane@.len() == y_plane.len());
    assert(u_plane@.len() == u_plane.len());
    assert(v_plane@.len() == v_plane.len());
    let mut out: Vec<u32> = vec![0u32; width * height];
    let mut row: usize = 0;
    while row < height
        invariant
            w == width,
            h == height,
            row <= height,
            out@.len() == w * h <= usize::MAX,
            y_plane@.len() <= usize::MAX,
            u_plane@.len() <= usize::MAX,
            v_plane@.len() <= usize::MAX,
            w > 0 && h > 0 ==> {
                &&& plane_covers(y_plane@, y_stride as int, h, w)
                &&& plane_covers(u_plane@, u_stride as int, (h + 1) / 2, (w + 1) / 2)
                &&& plane_covers(v_plane@, v_stride as int, (h + 1) / 2, (w + 1) / 2)
            },
            want == (|row: int, col: int|
                xrgb_at(
                    y_plane@,
                    y_stride as int,
                    u_plane@,
                    u_stride as int,
                    v_plane@,
                    v_stride as int,
                    row,
                    col,
                )),
            forall|r: int, c: int|
                0 <= r < row && 0 <= c < w ==> out@[#[trigger] (r * w + c)] == want(r, c),
        decreases height - row,
    {
        let mut col: usize = 0;
        while col < width
            invariant
                w == width,
                h == height,
                row < height,
                col <= width,
                out@.len() == w * h <= usize::MAX,
                y_plane@.len() <= usize::MAX,
                u_plane@.len() <= usize::MAX,
                v_plane@.len() <= usize::MAX,
                w > 0 && h > 0 ==> {
                    &&& plane_covers(y_plane@, y_stride as int, h, w)
                    &&& plane_covers(u_plane@, u_stride as int, (h + 1) / 2, (w + 1) / 2)
                    &&& plane_covers(v_plane@, v_stride as int, (h + 1) / 2, (w + 1) / 2)
                },
                want == (|row: int, col: int|
                    xrgb_at(
                        y_plane@,
                        y_stride as int,
                        u_plane@,
                        u_stride as int,
                        v_plane@,
                        v_stride as int,
                        row,
                        col,
                    )),
                forall|r: int, c: int|
                    0 <= r && 0 <= c < w && (r < row || (r == row && c < col))
                        ==> out@[#[trigger] (r * w + c)] == want(r, c),
            decreases width - col,
        {
            let ghost before = out@;
            proof {
                lemma_place(w, h, row as int, col as int);
                lemma_sample_in_range(y_plane@, y_stride as int, h, w, row as int, col as int);
                lemma_sample_in_range(
                    u_plane@,
                    u_stride as int,
                    (h + 1) / 2,
                    (w + 1) / 2,
                    row as int / 2,
                    col as int / 2,
                );
                lemma_sample_in_range(
                    v_plane@,
                    v_stride as int,
                    (h + 1) / 2,
                    (w + 1) / 2,
                    row as int / 2,
                    col as int / 2,
                );
            }
            let yv: i32 = y_plane[row * y_stride + col] as i32 - 16;
            let uv: i32 = u_plane[(row / 2) * u_stride + col / 2] as i32 - 128;
            let vv: i32 = v_plane[(row / 2) * v_stride + col / 2] as i32 - 128;

            // BT.601 limited range coefficients (integer approximation, scaled by 256)
            let r: u32 = clamp_to(scale_down(298 * yv + 409 * vv + 128), 0, 255) as u32;
            let g: u32 = clamp_to(scale_down(298 * yv - 100 * uv - 208 * vv + 128), 0, 255) as u32;
            let b: u32 = clamp_to(scale_down(298 * yv + 516 * uv + 128), 0, 255) as u32;

            assert((r << 16u32) | (g << 8u32) | b == r * 0x1_0000 + g * 0x100 + b) by (bit_vector)
                requires
                    r <= 255,
                    g <= 255,
                    b <= 255,
            ;
            out.set(row * width + col, (r << 16u32) | (g << 8u32) | b);
            proof {
                assert forall|r: int, c: int|
                    0 <= r && 0 <= c < w && (r < row || (r == row && c < col + 1)) implies out@[#[trigger] (r * w + c)] == want(r, c) by {
                    if r != row || c != col {
                        lemma_place(w, h, r, c);
                        assert(before[r * w + c] == want(r, c));
                    }
                }
            }
            col = col + 1;
        }
        row = row + 1;
    }
    out
}

/// How many samples an I420 image has, and where those of a pixel and of a block
/// stand.
pub proof fn law_i420_layout(bgra: Seq<u8>, width: int, height: int)
    requires
        0 <= width,
        0 <= height,
    ensures
        ({
            let out = i420(bgra, width, height);
            let pixels = width * height;
            let blocks = (width / 2) * (height / 2);
            &&& out.len() == pixels + blocks + blocks
            &&& forall|row: int, col: int|
                0 <= row < height && 0 <= col < width ==> out[row * width + col]
                    == #[trigger] luma_at(bgra, width, row, col)
            &&& forall|i: int, j: int|
                0 <= i < height / 2 && 0 <= j < width / 2 ==> out[pixels + (i * (width / 2) + j)]
                    == #[trigger] u_at(bgra, width, 2 * i, 2 * j)
            &&& forall|i: int, j: int|
                0 <= i < height / 2 && 0 <= j < width / 2 ==> out[pixels + blocks + (i * (width / 2)
                    + j)] == #[trigger] v_at(bgra, width, 2 * i, 2 * j)
        }),
{
    let out = i420(bgra, width, height);
    let pixels = width * height;
    let w = width / 2;
    let h = height / 2;
    let blocks = w * h;
    assert(0 <= pixels && 0 <= blocks) by (nonlinear_arith)
        requires
            pixels == width * height,
            blocks == w * h,
            0 <= width,
            0 <= height,
            0 <= w,
            0 <= h,
    ;
    assert forall|row: int, col: int| 0 <= row < height && 0 <= col < width implies out[row * width
        + col] == #[trigger] luma_at(bgra, width, row, col) by {
        lemma_place(width, height, row, col);
    }
    assert forall|i: int, j: int| 0 <= i < h && 0 <= j < w implies out[pixels + (i * w + j)]
        == #[trigger] u_at(bgra, width, 2 * i, 2 * j) by {
        lemma_place(w, h, i, j);
        assert(u_plane(bgra, width, height)[i * w + j] == u_at(bgra, width, 2 * i, 2 * j));
    }
    assert forall|i: int, j: int| 0 <= i < h && 0 <= j < w implies out[pixels + blocks + (i * w
        + j)] == #[trigger] v_at(bgra, width, 2 * i, 2 * j) by {
        lemma_place(w, h, i, j);
        assert(v_plane(bgra, width, height)[i * w + j] == v_at(bgra, width, 2 * i, 2 * j));
    }
}

/// Every sample of an I420 image is in the limited range: luma from 16 to 235, chroma
/// from 16 to 240.
pub proof fn law_limited_range(bgra: Seq<u8>, width: int, height: int, n: int)
    requires
        0 <= width,
        0 <= height,
        0 <= n < i420(bgra, width, height).len(),
    ensures
        n < width * height ==> 16 <= i420(bgra, width, height)[n] <= 235,
        width * height <= n ==> 16 <= i420(bgra, width, height)[n] <= 240,
{
    assert(0 <= width * height && 0 <= (width / 2) * (height / 2)) by (nonlinear_arith)
        requires
            0 <= width,
            0 <= height,
    ;
}

/// The colours of each pixel of a BGRA image are one value.
pub open spec fn is_grey(bgra: Seq<u8>, width: int, height: int) -> bool {
    forall|row: int, col: int|
        0 <= row < height && 0 <= col < width ==> {
            let s = #[trigger] bgra_offset(width, row, col);
            bgra[s] == bgra[s + 1] && bgra[s + 1] == bgra[s + 2]
        }
}

/// What a grey value comes back as after both conversions.
pub open spec fn grey_back(g: int) -> int {
    clamped((298 * (luma(g, g, g) - 16) + 128) / 256, 0, 255)
}

/// A grey value comes back within one of what it was; black and white come back as
/// they were.
pub proof fn law_grey_value(g: int)
    requires
        0 <= g <= 255,
    ensures
        g - 1 <= grey_back(g) <= g + 1,
        grey_back(0) == 0,
        grey_back(255) == 255,
        chroma_u(g, g, g) == 128,
        chroma_v(g, g, g) == 128,
        xrgb(luma(g, g, g), 128, 128) == grey_back(g) * 0x1_0101,
{
    let y = (220 * g + 128) / 256;
    assert(256 * y <= 220 * g + 128 < 256 * y + 256);
    assert(luma(g, g, g) == y + 16);
    let x = (298 * y + 128) / 256;
    assert(256 * x <= 298 * y + 128 < 256 * x + 256);
}

proof fn lemma_grey_pixel(bgra: Seq<u8>, width: int, height: int, row: int, col: int)
    requires
        width % 2 == 0,
        height % 2 == 0,
        is_grey(bgra, width, height),
        0 <= row < height,
        0 <= col < width,
    ensures
        ({
            let out = i420(bgra, width, height);
            let p = width * height;
            let g = bgra[bgra_offset(width, row, col)] as int;
            let x = grey_back(g);
            &&& xrgb_at(
                out.subrange(0, p),
                width,
                out.subrange(p, p + p / 4),
                width / 2,
                out.subrange(p + p / 4, out.len() as int),
                width / 2,
                row,
                col,
            ) == x * 0x1_0000 + x * 0x100 + x
            &&& g - 1 <= x <= g + 1
            &&& g == 0 ==> x == 0
            &&& g == 255 ==> x == 255
        }),
{
    let i = row / 2;
    let j = col / 2;
    let w = width / 2;
    let h = height / 2;
    let p = width * height;
    let out = i420(bgra, width, height);
    let g = bgra[bgra_offset(width, row, col)] as int;
    let b = bgra[bgra_offset(width, 2 * i, 2 * j)] as int;
    law_grey_value(g);
    law_grey_value(b);
    lemma_place(width, height, row, col);
    lemma_place(w, h, i, j);
    assert(p == 4 * (w * h)) by (nonlinear_arith)
        requires
            p == width * height,
            width == 2 * w,
            height == 2 * h,
    ;
    assert(out.subrange(0, p) =~= luma_plane(bgra, width, height));
    assert(out.subrange(p, p + p / 4) =~= u_plane(bgra, width, height));
    assert(out.subrange(p + p / 4, out.len() as int) =~= v_plane(bgra, width, height));
    assert(sample(luma_plane(bgra, width, height), width, row, col) == luma(g, g, g));
    assert(sample(u_plane(bgra, width, height), w, i, j) == chroma_u(b, b, b));
    assert(sample(v_plane(bgra, width, height), w, i, j) == chroma_v(b, b, b));
}

/// A grey image of even width and height comes back grey from both conversions, each
/// pixel within one of its value; black stays black and white stays white.
pub proof fn law_grey_image(bgra: Seq<u8>, width: int, height: int, pixels: Seq<u32>)
    requires
        0 <= width,
        0 <= height,
        width % 2 == 0,
        height % 2 == 0,
        is_grey(bgra, width, height),
        ({
            let out = i420(bgra, width, height);
            let p = width * height;
            is_xrgb_image(
                pixels,
                out.subrange(0, p),
                width,
                out.subrange(p, p + p / 4),
                width / 2,
                out.subrange(p + p / 4, out.len() as int),
                width / 2,
                width,
                height,
            )
        }),
    ensures
        pixels.len() == width * height,
        forall|i: int|
            0 <= i < width * height ==> {
                let g = bgra[4 * i] as int;
                let x = grey_back(g);
                &&& #[trigger] pixels[i] == x * 0x1_0000 + x * 0x100 + x
                &&& g - 1 <= x <= g + 1
                &&& g == 0 ==> pixels[i] == 0
                &&& g == 255 ==> pixels[i] == 0xff_ffff
            },
{
    assert forall|i: int| 0 <= i < width * height implies {
        let g = bgra[4 * i] as int;
        let x = grey_back(g);
        &&& #[trigger] pixels[i] == x * 0x1_0000 + x * 0x100 + x
        &&& g - 1 <= x <= g + 1
        &&& g == 0 ==> pixels[i] == 0
        &&& g == 255 ==> pixels[i] == 0xff_ffff
    } by {
        assert(0 < width) by (nonlinear_arith)
            requires
                0 <= i < width * height,
                0 <= width,
        ;
        let row = i / width;
        let col = i % width;
        vstd::arithmetic::div_mod::lemma_fundamental_div_mod(i, width);
        assert(i == row * width + col) by (nonlinear_arith)
            requires
                i == width * row + col,
        ;
        assert(0 <= row < height) by (nonlinear_arith)
            requires
                0 <= i < width * height,
                i == row * width + col,
                0 <= col < width,
        ;
        lemma_grey_pixel(bgra, width, height, row, col);
        assert(bgra_offset(width, row, col) == 4 * i);
    }
}

/// The top byte of an XRGB pixel is zero.
pub proof fn law_xrgb_top_byte_zero(y: int, u: int, v: int)
    ensures
        0 <= xrgb(y, u, v) < 0x100_0000,
{
}

/// The luma of a pixel is worked out from the bytes of that pixel: blue, green and red
/// are the first three of its four.
pub proof fn lemma_luma_sample(bgra: Seq<u8>, width: int, height: int, row: int, col: int)
    requires
        0 <= row < height,
        0 <= col < width,
    ensures
        ({
            let at = 4 * (row * width + col);
            i420(bgra, width, height)[row * width + col] == (66 * bgra[at + 2] + 129 * bgra[at + 1]
                + 25 * bgra[at] + 128) / 256 + 16
        }),
{
    law_i420_layout(bgra, width, height);
    assert(i420(bgra, width, height)[row * width + col] == luma_at(bgra, width, row, col));
}

/// The chroma of a block is worked out from the bytes of the pixel in its upper left
/// corner.
pub proof fn lemma_chroma_samples(bgra: Seq<u8>, width: int, height: int, i: int, j: int)
    requires
        0 <= i < height / 2,
        0 <= j < width / 2,
    ensures
        ({
            let at = 4 * (2 * i * width + 2 * j);
            let u = width * height + i * (width / 2) + j;
            let v = u + (width / 2) * (height / 2);
            let out = i420(bgra, width, height);
            &&& out[u] == (-38 * bgra[at + 2] - 74 * bgra[at + 1] + 112 * bgra[at] + 128) / 256
                + 128
            &&& out[v] == (112 * bgra[at + 2] - 94 * bgra[at + 1] - 18 * bgra[at] + 128) / 256
                + 128
        }),
{
    law_i420_layout(bgra, width, height);
    let pixels = width * height;
    let blocks = (width / 2) * (height / 2);
    let out = i420(bgra, width, height);
    assert(out[pixels + (i * (width / 2) + j)] == u_at(bgra, width, 2 * i, 2 * j));
    assert(out[pixels + blocks + (i * (width / 2) + j)] == v_at(bgra, width, 2 * i, 2 * j));
}

/// The samples of a picture. Each pixel has its luma, worked out from its own blue, green
/// and red byte, at its own place. Each block of two by two pixels has its chroma, worked
/// out from the bytes of the pixel in its upper left corner, at its own place in each of
/// the two planes behind the luma.
pub proof fn law_picture_samples(
    bgra: &[u8],
    width: usize,
    height: usize,
    out: Vec<u8>,
    row: int,
    col: int,
    i: int,
    j: int,
)
    requires
        call_ensures(bgra_to_i420, (bgra, width, height), out),
    ensures
        out@.len() == width * height + 2 * ((width / 2) * (height / 2)),
        0 <= row < height && 0 <= col < width ==> {
            let at = 4 * (row * width + col);
            out@[row * width + col] == (66 * bgra@[at + 2] + 129 * bgra@[at + 1] + 25 * bgra@[at]
                + 128) / 256 + 16
        },
        0 <= i < height as int / 2 && 0 <= j < width as int / 2 ==> {
            let at = 4 * (2 * i * width + 2 * j);
            let u = width * height + i * (width as int / 2) + j;
            let v = u + (width as int / 2) * (height as int / 2);
            &&& out@[u] == (-38 * bgra@[at + 2] - 74 * bgra@[at + 1] + 112 * bgra@[at] + 128) / 256
                + 128
            &&& out@[v] == (112 * bgra@[at + 2] - 94 * bgra@[at + 1] - 18 * bgra@[at] + 128) / 256
                + 128
        },
{
    law_i420_layout(bgra@, width as int, height as int);
    if 0 <= row < height && 0 <= col < width {
        lemma_luma_sample(bgra@, width as int, height as int, row, col);
    }
    if 0 <= i < height as int / 2 && 0 <= j < width as int / 2 {
        lemma_chroma_samples(bgra@, width as int, height as int, i, j);
    }
}

/// A pixel that changes, changes nothing in the samples but its own luma and, if it is in
/// the upper left corner of a block, the chroma of that block.
pub proof fn law_pixels_apart(
    bgra: &[u8],
    other: &[u8],
    width: usize,
    height: usize,
    out: Vec<u8>,
    changed: Vec<u8>,
    row: int,
    col: int,
    n: int,
)
    requires
        call_ensures(bgra_to_i420, (bgra, width, height), out),
        call_ensures(bgra_to_i420, (other, width, height), changed),
        0 <= row < height,
        0 <= col < width,
        4 * (width * height) <= bgra@.len(),
        other@.len() == bgra@.len(),
        forall|k: int|
            0 <= k < bgra@.len() && k / 4 != row * width + col ==> #[trigger] other@[k] == bgra@[k],
        0 <= n < out@.len(),
        n != row * width + col,
        row % 2 == 0 && col % 2 == 0 ==> n != width * height + row / 2 * (width as int / 2) + col
            / 2,
        row % 2 == 0 && col % 2 == 0 ==> n != width * height + (width as int / 2) * (height as int
            / 2) + row / 2 * (width as int / 2) + col / 2,
    ensures
        changed@[n] == out@[n],
{
    let w = width as int;
    let h = height as int;
    law_i420_layout(bgra@, w, h);
    let pixels = w * h;
    let blocks = (w / 2) * (h / 2);
    assert(0 <= pixels && 0 <= blocks) by (nonlinear_arith)
        requires
            pixels == w * h,
            blocks == (w / 2) * (h / 2),
            0 <= w,
            0 <= h,
    ;
    if n < pixels {
        let (a, b) = lemma_grid(w, h, n);
        lemma_luma_sample(bgra@, w, h, a, b);
        lemma_luma_sample(other@, w, h, a, b);
        lemma_same_pixel(bgra@, other@, w, h, row, col, a, b);
    } else {
        let k = if n < pixels + blocks {
            n - pixels
        } else {
            n - pixels - blocks
        };
        let (a, b) = lemma_grid(w / 2, h / 2, k);
        lemma_chroma_samples(bgra@, w, h, a, b);
        lemma_chroma_samples(other@, w, h, a, b);
        if 2 * a == row && 2 * b == col {
            assert(row / 2 == a && col / 2 == b);
        } else {
            lemma_same_pixel(bgra@, other@, w, h, row, col, 2 * a, 2 * b);
        }
    }
}

/// A place that is counted row by row has a row and a column.
proof fn lemma_grid(width: int, height: int, n: int) -> (r: (int, int))
    requires
        0 <= n < width * height,
        0 <= width,
    ensures
        0 <= r.0 < height,
        0 <= r.1 < width,
        n == r.0 * width + r.1,
{
    assert(0 < width) by (nonlinear_arith)
        requires
            0 <= n < width * height,
            0 <= width,
    ;
    let row = n / width;
    let col = n % width;
    vstd::arithmetic::div_mod::lemma_fundamental_div_mod(n, width);
    assert(n == row * width + col) by (nonlinear_arith)
        requires
            n == width * row + col,
    ;
    assert(0 <= row < height) by (nonlinear_arith)
        requires
            0 <= n < width * height,
            n == row * width + col,
            0 <= col < width,
    ;
    (row, col)
}

/// The bytes of a pixel are as they were if another one changed.
proof fn lemma_same_pixel(
    bgra: Seq<u8>,
    other: Seq<u8>,
    width: int,
    height: int,
    row: int,
    col: int,
    a: int,
    b: int,
)
    requires
        0 <= row < height,
        0 <= col < width,
        0 <= a < height,
        0 <= b < width,
        a != row || b != col,
        4 * (width * height) <= bgra.len(),
        forall|k: int|
            0 <= k < bgra.len() && k / 4 != row * width + col ==> #[trigger] other[k] == bgra[k],
    ensures
        ({
            let at = 4 * (a * width + b);
            &&& other[at] == bgra[at]
            &&& other[at + 1] == bgra[at + 1]
            &&& other[at + 2] == bgra[at + 2]
        }),
{
    lemma_place(width, height, row, col);
    lemma_place(width, height, a, b);
    let at = 4 * (a * width + b);
    assert(a * width + b != row * width + col);
    assert(at / 4 == a * width + b && (at + 1) / 4 == a * width + b && (at + 2) / 4 == a * width
        + b);
}

/// The pixels of a picture. Each is worked out from the luma sample at its own row and
/// column and from the two chroma samples at half its row and half its column, whatever
/// the strides; red, green and blue stand one behind the other, each held from 0 to 255.
pub proof fn law_picture_pixels(
    y_plane: &[u8],
    y_stride: usize,
    u_plane: &[u8],
    u_stride: usize,
    v_plane: &[u8],
    v_stride: usize,
    width: usize,
    height: usize,
    out: Vec<u32>,
    row: int,
    col: int,
)
    requires
        call_ensures(
            i420_strided_to_xrgb,
            (y_plane, y_stride, u_plane, u_stride, v_plane, v_stride, width, height),
            out,
        ),
    ensures
        out@.len() == width * height,
        0 <= row < height && 0 <= col < width ==> {
            let y = 298 * (y_plane@[row * y_stride + col] - 16);
            let u = u_plane@[row / 2 * u_stride + col / 2] - 128;
            let v = v_plane@[row / 2 * v_stride + col / 2] - 128;
            let red = (y + 409 * v + 128) / 256;
            let green = (y - 100 * u - 208 * v + 128) / 256;
            let blue = (y + 516 * u + 128) / 256;
            out@[row * width + col] == 0x1_0000 * (if red < 0 {
                0
            } else if red > 255 {
                255
            } else {
                red
            }) + 0x100 * (if green < 0 {
                0
            } else if green > 255 {
                255
            } else {
                green
            }) + (if blue < 0 {
                0
            } else if blue > 255 {
                255
            } else {
                blue
            })
        },
{
    if 0 <= row < height && 0 <= col < width {
        assert(out@[row * width + col] == xrgb_at(
            y_plane@,
            y_stride as int,
            u_plane@,
            u_stride as int,
            v_plane@,
            v_stride as int,
            row,
            col,
        ));
    }
}

} // verus!
