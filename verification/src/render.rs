//! Stateless pixel-level drawing primitives: source-over alpha compositing on
//! straight 8-bit RGBA colors, premultiplication, and bounded pixel access
//! into a BGRA byte buffer.
use vstd::prelude::*;

verus! {

/// A straight-alpha color as 8-bit (red, green, blue, alpha) channels.
pub type Color = (u8, u8, u8, u8);

/// Source-over blending of one channel: the foreground channel plus the
/// background channel scaled by the remaining transparency, saturating at 255.
/// All intermediate divisions truncate toward zero.
pub open spec fn blend_channel(c_f: int, c_b: int, a_f: int) -> int {
    let v = c_f + (c_b * (255 - a_f)) / 255;
    if v > 255 {
        255
    } else {
        v
    }
}

/// Source-over blending of the alpha channel.
pub open spec fn blend_alpha(a_f: int, a_b: int) -> int {
    a_f + (a_b * (255 - a_f)) / 255
}

/// Source-over compositing of a foreground color onto a background color.
/// When both colors are fully transparent the result is the canonical
/// transparent color.
pub open spec fn spec_blend(fg: Color, bg: Color) -> Color {
    if fg.3 == 0 && bg.3 == 0 {
        (0u8, 0u8, 0u8, 0u8)
    } else {
        (
            blend_channel(fg.0 as int, bg.0 as int, fg.3 as int) as u8,
            blend_channel(fg.1 as int, bg.1 as int, fg.3 as int) as u8,
            blend_channel(fg.2 as int, bg.2 as int, fg.3 as int) as u8,
            blend_alpha(fg.3 as int, bg.3 as int) as u8,
        )
    }
}

/// One channel scaled by the alpha fraction, truncating toward zero.
pub open spec fn premultiplied_channel(c: int, a: int) -> int {
    (c * a) / 255
}

/// A straight-alpha color with its R, G, B channels scaled by the alpha
/// fraction; the alpha channel itself is unchanged.
pub open spec fn spec_premultiply(c: Color) -> Color {
    (
        premultiplied_channel(c.0 as int, c.3 as int) as u8,
        premultiplied_channel(c.1 as int, c.3 as int) as u8,
        premultiplied_channel(c.2 as int, c.3 as int) as u8,
        c.3,
    )
}

proof fn lemma_blend_alpha_bounds(a_f: int, a_b: int)
    requires
        0 <= a_f <= 255,
        0 <= a_b <= 255,
    ensures
        0 <= blend_alpha(a_f, a_b) <= 255,
{
    assert(a_b * (255 - a_f) <= 255 * (255 - a_f)) by (nonlinear_arith)
        requires 0 <= a_b <= 255 && 0 <= a_f <= 255;
    assert(a_b * (255 - a_f) >= 0) by (nonlinear_arith)
        requires 0 <= a_b && a_f <= 255;
    assert((a_b * (255 - a_f)) / 255 <= (255 * (255 - a_f)) / 255) by {
        vstd::arithmetic::div_mod::lemma_div_is_ordered(
            a_b * (255 - a_f),
            255 * (255 - a_f),
            255,
        );
    }
    assert((255 * (255 - a_f)) / 255 == 255 - a_f) by (nonlinear_arith);
}

proof fn lemma_blend_channel_bounds(c_f: int, c_b: int, a_f: int)
    requires
        0 <= c_f <= 255,
        0 <= c_b <= 255,
        0 <= a_f <= 255,
    ensures
        0 <= blend_channel(c_f, c_b, a_f) <= 255,
{
    assert(c_b * (255 - a_f) >= 0) by (nonlinear_arith)
        requires 0 <= c_b && a_f <= 255;
}

fn blend_channel_exec(c_f: u8, c_b: u8, a_f: u8) -> (r: u8)
    ensures
        r as int == blend_channel(c_f as int, c_b as int, a_f as int),
{
    let inv: u32 = 255 - (a_f as u32);
    proof {
        assert((c_b as int) * (inv as int) <= 255 * 255) by (nonlinear_arith)
            requires 0 <= c_b as int <= 255 && 0 <= inv as int <= 255;
        assert((c_b as int) * (inv as int) >= 0) by (nonlinear_arith)
            requires 0 <= c_b as int && 0 <= inv as int;
    }
    let v: u32 = c_f as u32 + ((c_b as u32) * inv) / 255;
    if v > 255 {
        255
    } else {
        proof {
            lemma_blend_channel_bounds(c_f as int, c_b as int, a_f as int);
        }
        v as u8
    }
}

/// Source-over alpha compositing of `foreground` onto `background`, on
/// straight (non-premultiplied) 8-bit RGBA channels, with every division
/// truncating toward zero. When both inputs are fully transparent the result
/// is fully transparent with all channels zero.
pub fn alpha_blend(foreground: Color, background: Color) -> (result: Color)
    ensures
        result == spec_blend(foreground, background),
{
    let (r_f, g_f, b_f, a_f) = foreground;
    let (r_b, g_b, b_b, a_b) = background;
    if a_f == 0 && a_b == 0 {
        return (0, 0, 0, 0);
    }
    let r = blend_channel_exec(r_f, r_b, a_f);
    let g = blend_channel_exec(g_f, g_b, a_f);
    let b = blend_channel_exec(b_f, b_b, a_f);
    let inv: u32 = 255 - (a_f as u32);
    proof {
        assert((a_b as int) * (inv as int) <= 255 * 255) by (nonlinear_arith)
            requires 0 <= a_b as int <= 255 && 0 <= inv as int <= 255;
        assert((a_b as int) * (inv as int) >= 0) by (nonlinear_arith)
            requires 0 <= a_b as int && 0 <= inv as int;
        lemma_blend_alpha_bounds(a_f as int, a_b as int);
    }
    let a: u32 = a_f as u32 + ((a_b as u32) * inv) / 255;
    (r, g, b, a as u8)
}

/// Scales the R, G, B channels of a straight-alpha color by its alpha
/// fraction, truncating toward zero; the alpha channel is unchanged.
pub fn alpha_multiply(color: Color) -> (result: Color)
    ensures
        result == spec_premultiply(color),
{
    let (r, g, b, a) = color;
    proof {
        assert((r as int) * (a as int) <= 255 * 255 && (r as int) * (a as int) >= 0)
            by (nonlinear_arith)
            requires 0 <= r as int <= 255 && 0 <= a as int <= 255;
        assert((g as int) * (a as int) <= 255 * 255 && (g as int) * (a as int) >= 0)
            by (nonlinear_arith)
            requires 0 <= g as int <= 255 && 0 <= a as int <= 255;
        assert((b as int) * (a as int) <= 255 * 255 && (b as int) * (a as int) >= 0)
            by (nonlinear_arith)
            requires 0 <= b as int <= 255 && 0 <= a as int <= 255;
    }
    let rp: u32 = ((r as u32) * (a as u32)) / 255;
    let gp: u32 = ((g as u32) * (a as u32)) / 255;
    let bp: u32 = ((b as u32) * (a as u32)) / 255;
    (rp as u8, gp as u8, bp as u8, a)
}

/// Byte index of the first byte of pixel (x, y) in a buffer holding rows of
/// `screen_width` pixels, 4 bytes per pixel.
pub open spec fn pixel_index(x: int, y: int, screen_width: int) -> int {
    (y * screen_width + x) * 4
}

/// Whether pixel (x, y) lies within the surface extents backed by a buffer of
/// `len` bytes: the column is inside the row and all four bytes of the pixel
/// exist.
pub open spec fn pixel_in_bounds(x: int, y: int, screen_width: int, len: int) -> bool {
    &&& 0 <= x < screen_width
    &&& 0 <= y
    &&& pixel_index(x, y, screen_width) + 4 <= len
}

/// The color stored at pixel (x, y), decoded from the buffer's BGRA byte
/// order into (red, green, blue, alpha).
pub open spec fn pixel_at(s: Seq<u8>, x: int, y: int, screen_width: int) -> Color {
    let i = pixel_index(x, y, screen_width);
    (s[i + 2], s[i + 1], s[i], s[i + 3])
}

/// Byte `k` (0 to 3) of a color laid out in the buffer's BGRA byte order.
pub open spec fn stored_byte(c: Color, k: int) -> u8 {
    if k == 0 {
        c.2
    } else if k == 1 {
        c.1
    } else if k == 2 {
        c.0
    } else {
        c.3
    }
}

/// The buffer after compositing `color` over the pixel at (x, y): the four
/// bytes of that pixel hold the blended color, every other byte is unchanged.
pub open spec fn spec_set_pixel(s: Seq<u8>, x: int, y: int, screen_width: int, color: Color) -> Seq<
    u8,
> {
    let i = pixel_index(x, y, screen_width);
    let blended = spec_blend(color, pixel_at(s, x, y, screen_width));
    Seq::new(
        s.len(),
        |j: int|
            if i <= j < i + 4 {
                stored_byte(blended, j - i)
            } else {
                s[j]
            },
    )
}

proof fn lemma_pixel_bound(x: int, y: int, screen_width: int, len: int)
    requires
        0 <= x < screen_width,
        0 <= y,
        0 <= len,
    ensures
        y * screen_width + x < len / 4 ==> pixel_index(x, y, screen_width) + 4 <= len,
        y * screen_width + x >= len / 4 ==> pixel_index(x, y, screen_width) + 4 > len,
        y * screen_width >= 0,
{
    vstd::arithmetic::div_mod::lemma_fundamental_div_mod(len, 4);
    vstd::arithmetic::mul::lemma_mul_nonnegative(y, screen_width);
}

/// Composites `color` over the existing pixel at (x, y) and writes the result
/// back in the surface's byte order. A coordinate outside the surface extents
/// is rejected with a bounds error and the buffer is left unchanged.
pub fn set_pixel(buf: &mut Vec<u8>, x: usize, y: usize, screen_width: usize, color: Color) -> (result:
    Result<(), crate::CoreError>)
    ensures
        match result {
            Ok(()) => {
                &&& pixel_in_bounds(x as int, y as int, screen_width as int, old(buf)@.len() as int)
                &&& final(buf)@ == spec_set_pixel(
                    old(buf)@,
                    x as int,
                    y as int,
                    screen_width as int,
                    color,
                )
            },
            Err(e) => {
                &&& e == crate::CoreError::BoundsViolation
                &&& !pixel_in_bounds(x as int, y as int, screen_width as int, old(buf)@.len() as int)
                &&& final(buf)@ == old(buf)@
            },
        },
{
    if x >= screen_width {
        return Err(crate::CoreError::BoundsViolation);
    }
    let n: usize = buf.len();
    proof {
        lemma_pixel_bound(x as int, y as int, screen_width as int, buf@.len() as int);
    }
    let p: usize = match y.checked_mul(screen_width) {
        Some(t) => match t.checked_add(x) {
            Some(p) => p,
            None => {
                return Err(crate::CoreError::BoundsViolation);
            },
        },
        None => {
            return Err(crate::CoreError::BoundsViolation);
        },
    };
    if p >= n / 4 {
        return Err(crate::CoreError::BoundsViolation);
    }
    let i: usize = p * 4;
    let b_b = buf[i];
    let g_b = buf[i + 1];
    let r_b = buf[i + 2];
    let a_b = buf[i + 3];
    let c = alpha_blend(color, (r_b, g_b, b_b, a_b));
    let (r, g, b, a) = c;
    buf.set(i, b);
    buf.set(i + 1, g);
    buf.set(i + 2, r);
    buf.set(i + 3, a);
    proof {
        assert(buf@ =~= spec_set_pixel(old(buf)@, x as int, y as int, screen_width as int, color));
    }
    Ok(())
}

/// Reads the straight-alpha color stored at pixel (x, y), decoding the
/// surface's byte order.
pub fn get_pixel(buf: &Vec<u8>, x: usize, y: usize, screen_width: usize) -> (result: Color)
    requires
        pixel_in_bounds(x as int, y as int, screen_width as int, buf@.len() as int),
    ensures
        result == pixel_at(buf@, x as int, y as int, screen_width as int),
{
    let n: usize = buf.len();
    proof {
        vstd::arithmetic::mul::lemma_mul_nonnegative(y as int, screen_width as int);
    }
    let i: usize = (y * screen_width + x) * 4;
    (buf[i + 2], buf[i + 1], buf[i], buf[i + 3])
}

/// Whether pixel (px, py) lies inside the rectangle at (x, y) with the given
/// width and height.
pub open spec fn on_rect(px: int, py: int, x: int, y: int, w: int, h: int) -> bool {
    x <= px < x + w && y <= py < y + h
}

/// Whether pixel (px, py) lies on the left or right edge of the border drawn
/// around the rectangle at (x, y): columns x and x + w, rows y to y + h
/// exclusive.
pub open spec fn on_border_sides(px: int, py: int, x: int, y: int, w: int, h: int) -> bool {
    (px == x || px == x + w) && y <= py < y + h
}

/// Whether pixel (px, py) lies on the top or bottom edge of the border drawn
/// around the rectangle at (x, y): rows y and y + h, columns x to x + w
/// exclusive.
pub open spec fn on_border_rows(px: int, py: int, x: int, y: int, w: int, h: int) -> bool {
    (py == y || py == y + h) && x <= px < x + w
}

/// Whether all four bytes of the pixel that byte `i` belongs to exist in a
/// buffer of `len` bytes.
pub open spec fn pixel_complete(i: int, len: int) -> bool {
    (i / 4) * 4 + 4 <= len
}

/// Byte `i` of the buffer after compositing `color` over every pixel of the
/// rectangle that lies within the surface extents.
pub open spec fn rect_byte(
    s: Seq<u8>,
    i: int,
    x: int,
    y: int,
    w: int,
    h: int,
    screen_width: int,
    color: Color,
) -> u8 {
    let px = (i / 4) % screen_width;
    let py = (i / 4) / screen_width;
    if pixel_complete(i, s.len() as int) && on_rect(px, py, x, y, w, h) {
        stored_byte(spec_blend(color, pixel_at(s, px, py, screen_width)), i % 4)
    } else {
        s[i]
    }
}

/// The buffer after compositing `color` over every pixel of the rectangle at
/// (x, y) that lies within the surface extents. Each such pixel is composited
/// exactly once, against its original value; pixels outside the extents are
/// skipped; all other bytes are unchanged.
pub open spec fn spec_fill_rect(
    s: Seq<u8>,
    x: int,
    y: int,
    w: int,
    h: int,
    screen_width: int,
    color: Color,
) -> Seq<u8> {
    if screen_width < 1 {
        s
    } else {
        Seq::new(s.len(), |i: int| rect_byte(s, i, x, y, w, h, screen_width, color))
    }
}

/// The border color of the top and bottom edges: opaque white.
pub open spec fn border_row_color() -> Color {
    (255u8, 255u8, 255u8, 255u8)
}

/// The border color of the left and right edges: opaque black.
pub open spec fn border_side_color() -> Color {
    (0u8, 0u8, 0u8, 255u8)
}

/// Byte `i` of the buffer after drawing the border around the rectangle at
/// (x, y): opaque black on the side edges (drawn last, so they win at the
/// crossings), opaque white on the row edges.
pub open spec fn border_byte(
    s: Seq<u8>,
    i: int,
    x: int,
    y: int,
    w: int,
    h: int,
    screen_width: int,
) -> u8 {
    let px = (i / 4) % screen_width;
    let py = (i / 4) / screen_width;
    if pixel_complete(i, s.len() as int) && on_border_sides(px, py, x, y, w, h) {
        stored_byte(border_side_color(), i % 4)
    } else if pixel_complete(i, s.len() as int) && on_border_rows(px, py, x, y, w, h) {
        stored_byte(border_row_color(), i % 4)
    } else {
        s[i]
    }
}

/// The buffer after drawing a border around the rectangle at (x, y): opaque
/// white across the top and bottom edges, opaque black down the left and
/// right edges, black winning where the edges cross. Border pixels outside
/// the surface extents are skipped; all other bytes are unchanged.
pub open spec fn spec_border(s: Seq<u8>, x: int, y: int, w: int, h: int, screen_width: int) -> Seq<
    u8,
> {
    if screen_width < 1 {
        s
    } else {
        Seq::new(s.len(), |i: int| border_byte(s, i, x, y, w, h, screen_width))
    }
}

/// Relates the byte index of pixel (px, py) back to the pixel coordinates:
/// decomposing `pixel_index(px, py, sw) + k` recovers px, py and k.
proof fn lemma_pixel_index_decomp(px: int, py: int, k: int, sw: int)
    requires
        0 <= px < sw,
        0 <= py,
        0 <= k < 4,
    ensures
        (pixel_index(px, py, sw) + k) / 4 == py * sw + px,
        (pixel_index(px, py, sw) + k) % 4 == k,
        (py * sw + px) % sw == px,
        (py * sw + px) / sw == py,
        pixel_index(px, py, sw) >= 0,
{
    vstd::arithmetic::mul::lemma_mul_nonnegative(py, sw);
    vstd::arithmetic::div_mod::lemma_fundamental_div_mod_converse(
        pixel_index(px, py, sw) + k,
        4,
        py * sw + px,
        k,
    );
    vstd::arithmetic::div_mod::lemma_fundamental_div_mod_converse(py * sw + px, sw, py, px);
}

/// Every byte index decomposes into a pixel coordinate and a byte offset.
proof fn lemma_byte_decomp(i: int, sw: int)
    requires
        0 <= i,
        1 <= sw,
    ensures
        0 <= i % 4 < 4,
        0 <= (i / 4) % sw < sw,
        0 <= (i / 4) / sw,
        i == pixel_index((i / 4) % sw, (i / 4) / sw, sw) + i % 4,
{
    vstd::arithmetic::div_mod::lemma_fundamental_div_mod(i, 4);
    vstd::arithmetic::div_mod::lemma_mod_division_less_than_divisor(i, 4);
    vstd::arithmetic::div_mod::lemma_div_pos_is_pos(i, 4);
    vstd::arithmetic::div_mod::lemma_fundamental_div_mod(i / 4, sw);
    vstd::arithmetic::div_mod::lemma_mod_division_less_than_divisor(i / 4, sw);
    vstd::arithmetic::div_mod::lemma_div_pos_is_pos(i / 4, sw);
    let q4 = i / 4;
    let qs = q4 / sw;
    let rs = q4 % sw;
    assert(i == 4 * q4 + i % 4);
    assert(q4 == sw * qs + rs);
    assert(pixel_index(rs, qs, sw) == (qs * sw + rs) * 4);
    assert((qs * sw + rs) * 4 == (sw * qs + rs) * 4) by (nonlinear_arith);
}

/// Byte `i` of the buffer after compositing `color` over the single pixel
/// (x, y), or `s[i]` unchanged when the pixel is outside the surface extents.
spec fn pixel_write_byte(s: Seq<u8>, i: int, x: int, y: int, sw: int, color: Color) -> u8 {
    let px = (i / 4) % sw;
    let py = (i / 4) / sw;
    if pixel_complete(i, s.len() as int) && px == x && py == y {
        stored_byte(spec_blend(color, pixel_at(s, x, y, sw)), i % 4)
    } else {
        s[i]
    }
}

/// Composites `color` over the single pixel (x, y) when it lies within the
/// surface extents, leaving the buffer unchanged otherwise, stated byte by
/// byte over the whole buffer.
fn blend_pixel(buf: &mut Vec<u8>, x: usize, y: usize, screen_width: usize, color: Color)
    requires
        screen_width >= 1,
    ensures
        final(buf)@.len() == old(buf)@.len(),
        forall|i: int|
            0 <= i < old(buf)@.len() ==> final(buf)@[i] == pixel_write_byte(
                old(buf)@,
                i,
                x as int,
                y as int,
                screen_width as int,
                color,
            ),
{
    let ghost pre = buf@;
    let ghost swi = screen_width as int;
    let ghost xi = x as int;
    let ghost yi = y as int;
    let ghost len = pre.len() as int;
    let r = set_pixel(buf, x, y, screen_width, color);
    proof {
        match r {
            Ok(()) => {
                let idx = pixel_index(xi, yi, swi);
                assert forall|i: int| 0 <= i < len implies buf@[i] == pixel_write_byte(
                    pre,
                    i,
                    xi,
                    yi,
                    swi,
                    color,
                ) by {
                    lemma_byte_decomp(i, swi);
                    if idx <= i < idx + 4 {
                        lemma_pixel_index_decomp(xi, yi, i - idx, swi);
                    }
                }
            },
            Err(_) => {
                assert forall|i: int| 0 <= i < len implies buf@[i] == pixel_write_byte(
                    pre,
                    i,
                    xi,
                    yi,
                    swi,
                    color,
                ) by {
                    lemma_byte_decomp(i, swi);
                    let px = (i / 4) % swi;
                    let py = (i / 4) / swi;
                    if pixel_complete(i, len) && px == xi && py == yi {
                        assert(pixel_index(xi, yi, swi) == (i / 4) * 4);
                        assert(pixel_in_bounds(xi, yi, swi, len));
                        assert(false);
                    }
                }
            },
        }
    }
}

/// Byte `i` of the buffer while the rectangle fill is in progress: columns
/// before `cols_done` are fully composited, the column at `cols_done` is
/// composited for rows before `rows_done`.
spec fn rect_byte_partial(
    s: Seq<u8>,
    i: int,
    x: int,
    y: int,
    w: int,
    h: int,
    sw: int,
    color: Color,
    cols_done: int,
    rows_done: int,
) -> u8 {
    let px = (i / 4) % sw;
    let py = (i / 4) / sw;
    if pixel_complete(i, s.len() as int) && on_rect(px, py, x, y, w, h) && (px < cols_done || (px
        == cols_done && py < rows_done)) {
        stored_byte(spec_blend(color, pixel_at(s, px, py, sw)), i % 4)
    } else {
        s[i]
    }
}

/// Composites `color` into every pixel of the rectangle at (x, y) with the
/// given width and height — blending against the existing content, not
/// overwriting it. Pixels outside the surface extents are skipped.
#[verifier::loop_isolation(false)]
pub fn draw_rect(
    buf: &mut Vec<u8>,
    x: usize,
    y: usize,
    width: usize,
    height: usize,
    screen_width: usize,
    color: Color,
)
    requires
        x + width <= usize::MAX,
        y + height <= usize::MAX,
    ensures
        final(buf)@ == spec_fill_rect(
            old(buf)@,
            x as int,
            y as int,
            width as int,
            height as int,
            screen_width as int,
            color,
        ),
{
    if screen_width == 0 {
        return;
    }
    let ghost s = buf@;
    let ghost xi = x as int;
    let ghost yi = y as int;
    let ghost wi = width as int;
    let ghost hi = height as int;
    let ghost swi = screen_width as int;
    let ghost len = s.len() as int;
    let mut xx = x;
    while xx < x + width
        invariant
            x <= xx <= x + width,
            x + width <= usize::MAX,
            y + height <= usize::MAX,
            screen_width >= 1,
            buf@.len() == s.len(),
            forall|i: int|
                0 <= i < s.len() ==> buf@[i] == rect_byte_partial(
                    s,
                    i,
                    xi,
                    yi,
                    wi,
                    hi,
                    swi,
                    color,
                    xx as int,
                    yi,
                ),
        decreases x + width - xx,
    {
        let mut yy = y;
        while yy < y + height
            invariant
                x <= xx < x + width,
                y <= yy <= y + height,
                x + width <= usize::MAX,
                y + height <= usize::MAX,
                screen_width >= 1,
                buf@.len() == s.len(),
                forall|i: int|
                    0 <= i < s.len() ==> buf@[i] == rect_byte_partial(
                        s,
                        i,
                        xi,
                        yi,
                        wi,
                        hi,
                        swi,
                        color,
                        xx as int,
                        yy as int,
                    ),
            decreases y + height - yy,
        {
            let ghost pre = buf@;
            blend_pixel(buf, xx, yy, screen_width, color);
            proof {
                let xxi = xx as int;
                let yyi = yy as int;
                let idx = pixel_index(xxi, yyi, swi);
                assert forall|i: int| 0 <= i < s.len() implies buf@[i] == rect_byte_partial(
                    s,
                    i,
                    xi,
                    yi,
                    wi,
                    hi,
                    swi,
                    color,
                    xxi,
                    yyi + 1,
                ) by {
                    lemma_byte_decomp(i, swi);
                    let px = (i / 4) % swi;
                    let py = (i / 4) / swi;
                    if pixel_complete(i, len) && px == xxi && py == yyi {
                        lemma_pixel_index_decomp(xxi, yyi, 0, swi);
                        lemma_pixel_index_decomp(xxi, yyi, 1, swi);
                        lemma_pixel_index_decomp(xxi, yyi, 2, swi);
                        lemma_pixel_index_decomp(xxi, yyi, 3, swi);
                        assert(pre[idx] == s[idx]);
                        assert(pre[idx + 1] == s[idx + 1]);
                        assert(pre[idx + 2] == s[idx + 2]);
                        assert(pre[idx + 3] == s[idx + 3]);
                        assert(pixel_at(pre, xxi, yyi, swi) == pixel_at(s, xxi, yyi, swi));
                    }
                }
            }
            yy += 1;
        }
        proof {
            let xxi = xx as int;
            assert forall|i: int| 0 <= i < s.len() implies buf@[i] == rect_byte_partial(
                s,
                i,
                xi,
                yi,
                wi,
                hi,
                swi,
                color,
                xxi + 1,
                yi,
            ) by {
                lemma_byte_decomp(i, swi);
            }
        }
        xx += 1;
    }
    proof {
        assert forall|i: int| 0 <= i < s.len() implies buf@[i] == rect_byte(
            s,
            i,
            xi,
            yi,
            wi,
            hi,
            swi,
            color,
        ) by {
            lemma_byte_decomp(i, swi);
        }
        assert(buf@ =~= spec_fill_rect(s, xi, yi, wi, hi, swi, color));
    }
}

/// Byte `i` of the buffer while the white top/bottom border pass is in
/// progress: columns before `cols_done` have both edge pixels painted.
spec fn border_rows_partial(
    s: Seq<u8>,
    i: int,
    x: int,
    y: int,
    w: int,
    h: int,
    sw: int,
    cols_done: int,
) -> u8 {
    let px = (i / 4) % sw;
    let py = (i / 4) / sw;
    if pixel_complete(i, s.len() as int) && on_border_rows(px, py, x, y, w, h) && px < cols_done {
        stored_byte(border_row_color(), i % 4)
    } else {
        s[i]
    }
}

/// Byte `i` of the buffer after the white pass, while the black left/right
/// border pass is in progress: rows before `rows_done` have both edge pixels
/// painted black.
spec fn border_byte_partial(
    s: Seq<u8>,
    i: int,
    x: int,
    y: int,
    w: int,
    h: int,
    sw: int,
    rows_done: int,
) -> u8 {
    let px = (i / 4) % sw;
    let py = (i / 4) / sw;
    if pixel_complete(i, s.len() as int) && on_border_sides(px, py, x, y, w, h) && py < rows_done {
        stored_byte(border_side_color(), i % 4)
    } else if pixel_complete(i, s.len() as int) && on_border_rows(px, py, x, y, w, h) {
        stored_byte(border_row_color(), i % 4)
    } else {
        s[i]
    }
}

/// Draws the border of the rectangle at (x, y): the top and bottom edges
/// across the region's width in opaque white, then the left and right edges
/// across the region's height in opaque black (the color asymmetry of the
/// edges is deliberate and preserved). Border pixels outside the surface
/// extents are skipped.
#[verifier::loop_isolation(false)]
pub fn draw_border(
    buf: &mut Vec<u8>,
    x: usize,
    y: usize,
    width: usize,
    height: usize,
    screen_width: usize,
)
    requires
        x + width <= usize::MAX,
        y + height <= usize::MAX,
    ensures
        final(buf)@ == spec_border(
            old(buf)@,
            x as int,
            y as int,
            width as int,
            height as int,
            screen_width as int,
        ),
{
    if screen_width == 0 {
        return;
    }
    let ghost s = buf@;
    let ghost xi = x as int;
    let ghost yi = y as int;
    let ghost wi = width as int;
    let ghost hi = height as int;
    let ghost swi = screen_width as int;
    let ghost len = s.len() as int;
    let white: Color = (255, 255, 255, 255);
    let black: Color = (0, 0, 0, 255);
    let mut xx = x;
    while xx < x + width
        invariant
            x <= xx <= x + width,
            x + width <= usize::MAX,
            y + height <= usize::MAX,
            screen_width >= 1,
            buf@.len() == s.len(),
            white == border_row_color(),
            forall|i: int|
                0 <= i < s.len() ==> buf@[i] == border_rows_partial(
                    s,
                    i,
                    xi,
                    yi,
                    wi,
                    hi,
                    swi,
                    xx as int,
                ),
        decreases x + width - xx,
    {
        let ghost pre = buf@;
        blend_pixel(buf, xx, y, screen_width, white);
        let ghost mid = buf@;
        blend_pixel(buf, xx, y + height, screen_width, white);
        proof {
            let xxi = xx as int;
            lemma_blend_opaque_foreground(white, pixel_at(pre, xxi, yi, swi));
            lemma_blend_opaque_foreground(white, pixel_at(mid, xxi, yi + hi, swi));
            assert forall|i: int| 0 <= i < s.len() implies buf@[i] == border_rows_partial(
                s,
                i,
                xi,
                yi,
                wi,
                hi,
                swi,
                xxi + 1,
            ) by {
                lemma_byte_decomp(i, swi);
            }
        }
        xx += 1;
    }
    let mut yy = y;
    while yy < y + height
        invariant
            y <= yy <= y + height,
            x + width <= usize::MAX,
            y + height <= usize::MAX,
            screen_width >= 1,
            buf@.len() == s.len(),
            white == border_row_color(),
            black == border_side_color(),
            forall|i: int|
                0 <= i < s.len() ==> buf@[i] == border_byte_partial(
                    s,
                    i,
                    xi,
                    yi,
                    wi,
                    hi,
                    swi,
                    yy as int,
                ),
        decreases y + height - yy,
    {
        let ghost pre = buf@;
        blend_pixel(buf, x, yy, screen_width, black);
        let ghost mid = buf@;
        blend_pixel(buf, x + width, yy, screen_width, black);
        proof {
            let yyi = yy as int;
            lemma_blend_opaque_foreground(black, pixel_at(pre, xi, yyi, swi));
            lemma_blend_opaque_foreground(black, pixel_at(mid, xi + wi, yyi, swi));
            assert forall|i: int| 0 <= i < s.len() implies buf@[i] == border_byte_partial(
                s,
                i,
                xi,
                yi,
                wi,
                hi,
                swi,
                yyi + 1,
            ) by {
                lemma_byte_decomp(i, swi);
            }
        }
        yy += 1;
    }
    proof {
        assert forall|i: int| 0 <= i < s.len() implies buf@[i] == border_byte(
            s,
            i,
            xi,
            yi,
            wi,
            hi,
            swi,
        ) by {
            lemma_byte_decomp(i, swi);
        }
        assert(buf@ =~= spec_border(s, xi, yi, wi, hi, swi));
    }
}

/// Inset of a cell's label area from the cell origin, in pixels.
pub const LABEL_INSET: usize = 5;

/// Byte `k` (0 to 3) of a raw four-byte pixel fill, in storage order.
pub open spec fn fill_nth(b: (u8, u8, u8, u8), k: int) -> u8 {
    if k == 0 {
        b.0
    } else if k == 1 {
        b.1
    } else if k == 2 {
        b.2
    } else {
        b.3
    }
}

/// The buffer with every complete pixel's four bytes overwritten by the
/// given bytes in storage order; trailing bytes of an incomplete pixel are
/// unchanged.
pub open spec fn spec_fill_bytes(s: Seq<u8>, b: (u8, u8, u8, u8)) -> Seq<u8> {
    Seq::new(
        s.len(),
        |i: int|
            if i < (s.len() as int / 4) * 4 {
                fill_nth(b, i % 4)
            } else {
                s[i]
            },
    )
}

/// Overwrites every complete pixel's four bytes with the given bytes, in
/// storage order — a raw backdrop fill, not a blend.
#[verifier::loop_isolation(false)]
pub fn fill_bytes(buf: &mut Vec<u8>, b: (u8, u8, u8, u8))
    ensures
        final(buf)@ == spec_fill_bytes(old(buf)@, b),
{
    let ghost s = buf@;
    let len = buf.len();
    let n = len / 4;
    proof {
        vstd::arithmetic::div_mod::lemma_fundamental_div_mod(len as int, 4);
        vstd::arithmetic::div_mod::lemma_mod_division_less_than_divisor(len as int, 4);
    }
    let mut i: usize = 0;
    while i < n
        invariant
            i <= n,
            buf@.len() == s.len(),
            forall|j: int|
                0 <= j < s.len() ==> buf@[j] == (if j < 4 * i {
                    fill_nth(b, j % 4)
                } else {
                    s[j]
                }),
        decreases n - i,
    {
        let base = i * 4;
        let ghost pre = buf@;
        buf.set(base, b.0);
        buf.set(base + 1, b.1);
        buf.set(base + 2, b.2);
        buf.set(base + 3, b.3);
        proof {
            let bi = base as int;
            vstd::arithmetic::div_mod::lemma_fundamental_div_mod_converse(bi, 4, i as int, 0);
            vstd::arithmetic::div_mod::lemma_fundamental_div_mod_converse(bi + 1, 4, i as int, 1);
            vstd::arithmetic::div_mod::lemma_fundamental_div_mod_converse(bi + 2, 4, i as int, 2);
            vstd::arithmetic::div_mod::lemma_fundamental_div_mod_converse(bi + 3, 4, i as int, 3);
        }
        i += 1;
    }
    proof {
        assert(buf@ =~= spec_fill_bytes(s, b));
    }
}

/// Composites one glyph sample box from the text-layout collaborator into a
/// grid cell's label area: the glyph rectangle, offset by the cell origin
/// plus the label inset, is filled with the premultiplied sample color.
pub fn composite_glyph(
    buf: &mut Vec<u8>,
    cell_x: usize,
    cell_y: usize,
    glyph_x: usize,
    glyph_y: usize,
    glyph_w: usize,
    glyph_h: usize,
    screen_width: usize,
    color: Color,
)
    requires
        cell_x + glyph_x + LABEL_INSET + glyph_w <= usize::MAX,
        cell_y + glyph_y + LABEL_INSET + glyph_h <= usize::MAX,
    ensures
        final(buf)@ == spec_fill_rect(
            old(buf)@,
            cell_x + glyph_x + LABEL_INSET as int,
            cell_y + glyph_y + LABEL_INSET as int,
            glyph_w as int,
            glyph_h as int,
            screen_width as int,
            spec_premultiply(color),
        ),
{
    let premultiplied = alpha_multiply(color);
    draw_rect(
        buf,
        cell_x + glyph_x + LABEL_INSET,
        cell_y + glyph_y + LABEL_INSET,
        glyph_w,
        glyph_h,
        screen_width,
        premultiplied,
    );
}

/// Law: compositing a fully opaque foreground over any background yields the
/// foreground unchanged.
pub proof fn lemma_blend_opaque_foreground(fg: Color, bg: Color)
    requires
        fg.3 == 255,
    ensures
        spec_blend(fg, bg) == fg,
{
}

/// Law: compositing the fully transparent color over a background leaves the
/// background unchanged, for any background that is either visible
/// (alpha > 0) or the canonical transparent color itself.
pub proof fn lemma_blend_transparent_foreground(bg: Color)
    requires
        bg.3 > 0 || bg == (0u8, 0u8, 0u8, 0u8),
    ensures
        spec_blend((0u8, 0u8, 0u8, 0u8), bg) == bg,
{
    assert((bg.0 as int * 255) / 255 == bg.0 as int) by (nonlinear_arith);
    assert((bg.1 as int * 255) / 255 == bg.1 as int) by (nonlinear_arith);
    assert((bg.2 as int * 255) / 255 == bg.2 as int) by (nonlinear_arith);
    assert((bg.3 as int * 255) / 255 == bg.3 as int) by (nonlinear_arith);
}

} // verus!
