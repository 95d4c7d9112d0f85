//! Showing a frame buffer on a window surface: colours become 32-bit pixel
//! words, and a frame buffer of another size is scaled to the surface by
//! nearest neighbour.

use vstd::prelude::*;

verus! {

/// The pixel word of a colour: red in bits 16 to 23, green in bits 8 to 15,
/// blue in bits 0 to 7; alpha is dropped.
pub open spec fn pixel_of(c: [u8; 4]) -> u32 {
    (c[0] * 65536 + c[1] * 256 + c[2]) as u32
}

/// The pixel word of a colour, as `pixel_of` says.
pub fn to_pixel(c: [u8; 4]) -> (p: u32)
    ensures
        p == pixel_of(c),
{
    let r = c[0];
    let g = c[1];
    let b = c[2];
    let p = ((r as u32) << 16) | ((g as u32) << 8) | (b as u32);
    assert(((r as u32) << 16) | ((g as u32) << 8) | (b as u32) == r * 65536 + g * 256 + b) by (bit_vector);
    p
}

/// The frame-buffer pixel that shows at column `x`, row `y` of a surface of
/// `sw` by `sh`: column `x * fw / sw` and row `y * fh / sh` of the frame buffer
/// of `fw` by `fh`.
pub open spec fn scaled_pixel(x: int, y: int, sw: int, sh: int, fw: int, fh: int, fb: Seq<[u8; 4]>) -> u32 {
    pixel_of(fb[(y * fh / sh) * fw + x * fw / sw])
}

/// `new` is the surface `old` of `sw` by `sh` after showing the frame buffer
/// `fb` of `fw` by `fh` on it. Where the sizes agree the pixels are copied one
/// for one, as far as both reach. Otherwise, where the frame buffer is not
/// empty, every surface pixel shows its nearest frame-buffer pixel; an empty
/// frame buffer of another size leaves the surface as it was.
pub open spec fn frame_shown(
    new: Seq<u32>,
    old: Seq<u32>,
    sw: int,
    sh: int,
    fw: int,
    fh: int,
    fb: Seq<[u8; 4]>,
) -> bool {
    &&& new.len() == old.len()
    &&& if fw == sw && fh == sh {
        forall|i: int|
            0 <= i < new.len() ==> #[trigger] new[i] == (if i < fb.len() {
                pixel_of(fb[i])
            } else {
                old[i]
            })
    } else if fw > 0 && fh > 0 {
        forall|x: int, y: int|
            0 <= x < sw && 0 <= y < sh ==> #[trigger] new[y * sw + x] == scaled_pixel(x, y, sw, sh, fw, fh, fb)
    } else {
        new == old
    }
}

/// A surface coordinate below `s` scales to a frame-buffer coordinate below
/// `f`.
proof fn lemma_scaled_coord(v: int, s: int, f: int)
    requires
        0 <= v < s,
        f > 0,
    ensures
        0 <= v * f / s < f,
{
    assert(0 <= v * f < s * f) by (nonlinear_arith)
        requires
            0 <= v < s,
            f > 0,
    ;
    vstd::arithmetic::div_mod::lemma_multiply_divide_lt(v * f, s, f);
    vstd::arithmetic::div_mod::lemma_div_pos_is_pos(v * f, s);
}

/// The frame-buffer pixel that a surface pixel shows lies in the frame buffer.
proof fn lemma_scaled_index(x: int, y: int, sw: int, sh: int, fw: int, fh: int)
    requires
        0 <= x < sw,
        0 <= y < sh,
        fw > 0,
        fh > 0,
    ensures
        0 <= y * fh / sh < fh,
        0 <= x * fw / sw < fw,
        0 <= (y * fh / sh) * fw + x * fw / sw < fw * fh,
{
    lemma_scaled_coord(y, sh, fh);
    lemma_scaled_coord(x, sw, fw);
    let sy = y * fh / sh;
    let sx = x * fw / sw;
    assert(0 <= sy * fw + sx < fw * fh) by (nonlinear_arith)
        requires
            0 <= sy < fh,
            0 <= sx < fw,
    {
        assert(sy * fw <= (fh - 1) * fw);
    }
}

/// Shows the frame buffer `fb_color` of `fb_width` by `fb_height` on the
/// surface `dst` of `sb_width` by `sb_height`, as `frame_shown` says.
pub fn present_frame(dst: &mut [u32], sb_width: usize, sb_height: usize, fb_width: u32, fb_height: u32, fb_color: &Vec<[u8; 4]>)
    requires
        old(dst)@.len() == sb_width * sb_height,
        fb_color@.len() == fb_width * fb_height,
        sb_width * fb_width <= usize::MAX,
        sb_height * fb_height <= usize::MAX,
    ensures
        frame_shown(final(dst)@, old(dst)@, sb_width as int, sb_height as int, fb_width as int, fb_height as int, fb_color@),
{
    let fw = fb_width as usize;
    let fh = fb_height as usize;
    if fw == sb_width && fh == sb_height {
        let n = if dst.len() < fb_color.len() { dst.len() } else { fb_color.len() };
        let mut i: usize = 0;
        while i < n
            invariant
                n <= dst@.len(),
                n <= fb_color@.len(),
                n == dst@.len() || n == fb_color@.len(),
                i <= n,
                dst@.len() == old(dst)@.len(),
                forall|j: int| 0 <= j < i ==> #[trigger] dst@[j] == pixel_of(fb_color@[j]),
                forall|j: int| i <= j < dst@.len() ==> #[trigger] dst@[j] == old(dst)@[j],
            decreases n - i,
        {
            dst[i] = to_pixel(fb_color[i]);
            i = i + 1;
        }
    } else if fw > 0 && fh > 0 {
        let dst_len = dst.len();
        let fb_len = fb_color.len();
        let mut y: usize = 0;
        while y < sb_height
            invariant
                dst@.len() == sb_width * sb_height,
                fb_color@.len() == fw * fh,
                dst_len == dst@.len(),
                fb_len == fb_color@.len(),
                fw > 0,
                fh > 0,
                fw == fb_width,
                fh == fb_height,
                sb_width * fw <= usize::MAX,
                sb_height * fh <= usize::MAX,
                y <= sb_height,
                forall|x: int, yy: int|
                    0 <= x < sb_width && 0 <= yy < y ==> #[trigger] dst@[yy * sb_width + x] == scaled_pixel(
                        x,
                        yy,
                        sb_width as int,
                        sb_height as int,
                        fw as int,
                        fh as int,
                        fb_color@,
                    ),
            decreases sb_height - y,
        {
            assert(y * fh <= sb_height * fh) by (nonlinear_arith)
                requires
                    y <= sb_height,
            ;
            let sy = (y * fh) / sb_height;
            proof {
                lemma_scaled_coord(y as int, sb_height as int, fh as int);
            }
            assert(sy * fw <= (fh - 1) * fw) by (nonlinear_arith)
                requires
                    sy < fh,
            ;
            assert((fh - 1) * fw < fw * fh) by (nonlinear_arith)
                requires
                    fw > 0,
            ;
            let src_row = sy * fw;
            assert(y * sb_width + sb_width <= sb_width * sb_height) by (nonlinear_arith)
                requires
                    y < sb_height,
            ;
            let dst_row = y * sb_width;
            let ghost done = dst@;
            let mut x: usize = 0;
            while x < sb_width
                invariant
                    dst@.len() == sb_width * sb_height,
                    dst@.len() == done.len(),
                    fb_color@.len() == fw * fh,
                    dst_len == dst@.len(),
                    fb_len == fb_color@.len(),
                    fw > 0,
                    fh > 0,
                    fw == fb_width,
                    fh == fb_height,
                    sb_width * fw <= usize::MAX,
                    y < sb_height,
                    sy == (y * fh) as int / sb_height as int,
                    src_row == sy * fw,
                    dst_row == y * sb_width,
                    y * sb_width + sb_width <= sb_width * sb_height,
                    x <= sb_width,
                    forall|j: int| 0 <= j < y * sb_width ==> #[trigger] dst@[j] == done[j],
                    forall|xx: int|
                        0 <= xx < x ==> #[trigger] dst@[y * sb_width + xx] == scaled_pixel(
                            xx,
                            y as int,
                            sb_width as int,
                            sb_height as int,
                            fw as int,
                            fh as int,
                            fb_color@,
                        ),
                decreases sb_width - x,
            {
                assert(x * fw <= sb_width * fw) by (nonlinear_arith)
                    requires
                        x <= sb_width,
                ;
                let sx = (x * fw) / sb_width;
                assert(dst_row + x < sb_width * sb_height);
                proof {
                    lemma_scaled_index(x as int, y as int, sb_width as int, sb_height as int, fw as int, fh as int);
                }
                dst[dst_row + x] = to_pixel(fb_color[src_row + sx]);
                x = x + 1;
            }
            assert forall|x: int, yy: int|
                0 <= x < sb_width && 0 <= yy < y + 1 implies #[trigger] dst@[yy * sb_width + x] == scaled_pixel(
                    x,
                    yy,
                    sb_width as int,
                    sb_height as int,
                    fw as int,
                    fh as int,
                    fb_color@,
                ) by {
                if yy < y {
                    assert(yy * sb_width + x < y * sb_width) by (nonlinear_arith)
                        requires
                            yy < y,
                            x < sb_width,
                    ;
                    assert(dst@[yy * sb_width + x] == done[yy * sb_width + x]);
                } else {
                    assert(yy == y);
                }
            }
            y = y + 1;
        }
    }
}

} // verus!
