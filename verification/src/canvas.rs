//! The canvas: an image buffer that takes the colour of each pixel, and
//! the rendering of a whole picture into it.

use vstd::prelude::*;
use crate::color::Color;
use crate::error::TraceError;
use crate::render::{camera_is_clear, pixel_color, render_pixel, Camera};
use crate::scene::Scene;

verus! {

/// An image of 8-bit red, green and blue channels: an `image::ImageBuffer`
/// with `image::Rgb<u8>` pixels in a `Vec<u8>`. Verus does not look inside;
/// what the functions below claim of it is taken from the source of the
/// `image` crate and not proved.
#[verifier::external_body]
pub struct Canvas {
    buffer: image::ImageBuffer<image::Rgb<u8>, Vec<u8>>,
}

/// The bytes that a canvas holds: three for each pixel, red, green and
/// blue, the pixels row by row from the top left corner.
pub uninterp spec fn canvas_bytes(canvas: Canvas) -> Seq<u8>;

/// The number of pixels in a row of a canvas: the width that it was made
/// with.
pub uninterp spec fn canvas_width(canvas: Canvas) -> int;

/// The number of rows of a canvas: the height that it was made with.
pub uninterp spec fn canvas_height(canvas: Canvas) -> int;

/// The place of the first byte of the pixel in column `x` and row `y` of a
/// canvas of the given width.
pub open spec fn byte_index(x: int, y: int, width: int) -> int {
    3 * (y * width + x)
}

/// The bytes `at`, `at + 1` and `at + 2` hold the channels of `color`.
pub open spec fn holds_color(bytes: Seq<u8>, at: int, color: Color) -> bool {
    bytes[at] == color.r && bytes[at + 1] == color.g && bytes[at + 2] == color.b
}

/// Calls `image::ImageBuffer::new`, unproved: the crate makes a buffer of
/// the given width and height with three bytes for each pixel, all of them
/// zero. It
/// counts the bytes as three times the width, times the height, and fails
/// where either product is more than a machine word holds, or where the
/// bytes are more than a vector can hold; such sizes are left out, also
/// those with a height of zero whose rows alone are too long.
#[verifier::external_body]
fn new_canvas(width: u32, height: u32) -> (canvas: Canvas)
    requires
        3 * width <= usize::MAX,
        3 * (width * height) <= isize::MAX,
    ensures
        canvas_width(canvas) == width,
        canvas_height(canvas) == height,
        canvas_bytes(canvas).len() == 3 * (width * height),
        forall|i: int| 0 <= i < canvas_bytes(canvas).len() ==> canvas_bytes(canvas)[i] == 0,
{
    Canvas { buffer: image::ImageBuffer::new(width, height) }
}

/// Calls `image::ImageBuffer::put_pixel`, unproved: the crate writes the
/// channels of the colour to the three bytes of the pixel in column `x` and
/// row `y`, which start at three times `y * width + x`, and leaves the other
/// bytes, the width and the height as they are. It fails for a column or a
/// row that the buffer does not have, so such places are left out.
#[verifier::external_body]
fn put_pixel(canvas: &mut Canvas, x: u32, y: u32, color: Color)
    requires
        x < canvas_width(*old(canvas)),
        y < canvas_height(*old(canvas)),
    ensures
        canvas_width(*final(canvas)) == canvas_width(*old(canvas)),
        canvas_height(*final(canvas)) == canvas_height(*old(canvas)),
        canvas_bytes(*final(canvas)) == canvas_bytes(*old(canvas)).update(
            byte_index(x as int, y as int, canvas_width(*old(canvas))),
            color.r,
        ).update(byte_index(x as int, y as int, canvas_width(*old(canvas))) + 1, color.g).update(
            byte_index(x as int, y as int, canvas_width(*old(canvas))) + 2,
            color.b,
        ),
{
    canvas.buffer.put_pixel(x, y, image::Rgb([color.r, color.g, color.b]))
}

/// Calls `image::ImageBuffer::into_raw`, unproved: the crate hands out the
/// vector of bytes that the buffer holds.
#[verifier::external_body]
fn into_bytes(canvas: Canvas) -> (bytes: Vec<u8>)
    ensures
        bytes@ == canvas_bytes(canvas),
{
    canvas.buffer.into_raw()
}

/// The pixel in column `xa` and row `ya` comes before the one in column
/// `xb` and row `yb` when the rows are read from the top, each from the
/// left.
pub open spec fn comes_before(xa: int, ya: int, xb: int, yb: int) -> bool {
    ya < yb || (ya == yb && xa < xb)
}

/// A pixel that comes before another has the smaller byte index, and
/// every pixel of a canvas has its three bytes within the canvas.
pub proof fn lemma_byte_index(xa: int, ya: int, xb: int, yb: int, width: int, height: int)
    requires
        0 <= xa < width,
        0 <= xb < width,
        0 <= ya,
        0 <= yb < height,
        comes_before(xa, ya, xb, yb),
    ensures
        0 <= byte_index(xa, ya, width),
        byte_index(xa, ya, width) + 3 <= byte_index(xb, yb, width),
        byte_index(xb, yb, width) + 3 <= 3 * (width * height),
{
    assert(ya * width >= 0 && (ya < yb ==> (ya + 1) * width <= yb * width) && (yb + 1) * width
        <= height * width && (ya + 1) * width == ya * width + width && (yb + 1) * width == yb
        * width + width && height * width == width * height) by (nonlinear_arith)
        requires
            0 <= ya,
            ya <= yb,
            yb < height,
            0 < width,
    ;
}

/// Every pixel of a canvas has its three bytes within the canvas.
pub proof fn lemma_pixel_fits(x: int, y: int, width: int, height: int)
    requires
        0 <= x < width,
        0 <= y < height,
    ensures
        0 <= byte_index(x, y, width),
        byte_index(x, y, width) + 3 <= 3 * (width * height),
{
    assert(0 <= y * width && y * width + width <= width * height) by (nonlinear_arith)
        requires
            0 <= y < height,
            0 < width,
    ;
}

/// Tells whether a vector can hold the bytes of the camera's canvas.
pub fn canvas_fits(camera: &Camera) -> (b: bool)
    ensures
        b == (3 * (camera.canvas_width * camera.canvas_height) <= isize::MAX),
{
    proof {
        crate::fixed::lemma_mul_le(
            camera.canvas_width as int,
            camera.canvas_height as int,
            0xffff_ffff,
            0xffff_ffff,
        );
    }
    let pixels: u128 = (camera.canvas_width as u128) * (camera.canvas_height as u128);
    3 * pixels <= isize::MAX as u128
}

/// The picture that the camera takes of the scene, as bytes: three for
/// each pixel, red, green and blue, the pixels row by row from the top
/// left corner. Where the tracing of a pixel fails, the error of the first
/// such pixel is returned.
pub fn render(camera: &Camera, scene: &Scene) -> (picture: Result<Vec<u8>, TraceError>)
    requires
        camera.wf(),
        scene.wf(),
        3 * (camera.canvas_width * camera.canvas_height) <= isize::MAX,
    ensures
        camera_is_clear(*camera, scene.spheres@, scene.lights@) ==> picture is Ok,
        match picture {
            Ok(bytes) => {
                &&& bytes@.len() == 3 * (camera.canvas_width * camera.canvas_height)
                &&& forall|x: int, y: int|
                    0 <= x < camera.canvas_width && 0 <= y < camera.canvas_height ==> (
                    #[trigger] pixel_color(*camera, scene.spheres@, scene.lights@, x, y)
                        matches Ok(color) && holds_color(
                        bytes@,
                        byte_index(x, y, camera.canvas_width as int),
                        color,
                    ))
            },
            Err(e) => exists|x: int, y: int|
                {
                    &&& 0 <= x < camera.canvas_width && 0 <= y < camera.canvas_height
                    &&& #[trigger] pixel_color(*camera, scene.spheres@, scene.lights@, x, y)
                        == Err::<Color, TraceError>(e)
                    &&& forall|xa: int, ya: int|
                        0 <= xa < camera.canvas_width && 0 <= ya && comes_before(xa, ya, x, y)
                            ==> (#[trigger] pixel_color(
                            *camera,
                            scene.spheres@,
                            scene.lights@,
                            xa,
                            ya,
                        )) is Ok
                },
        },
{
    let width: u32 = camera.canvas_width;
    let height: u32 = camera.canvas_height;
    proof {
        crate::fixed::lemma_mul_le(width as int, 1, width as int, height as int);
    }
    let mut canvas: Canvas = new_canvas(width, height);
    let mut y: u32 = 0;
    while y < height
        invariant
            camera.wf(),
            scene.wf(),
            width == camera.canvas_width,
            height == camera.canvas_height,
            0 <= y <= height,
            canvas_width(canvas) == width,
            canvas_height(canvas) == height,
            canvas_bytes(canvas).len() == 3 * (width * height),
            forall|xa: int, ya: int|
                0 <= xa < width && 0 <= ya < y ==> (#[trigger] pixel_color(
                    *camera,
                    scene.spheres@,
                    scene.lights@,
                    xa,
                    ya,
                ) matches Ok(color) && holds_color(
                    canvas_bytes(canvas),
                    byte_index(xa, ya, width as int),
                    color,
                )),
        decreases height - y,
    {
        let mut x: u32 = 0;
        while x < width
            invariant
                camera.wf(),
                scene.wf(),
                width == camera.canvas_width,
                height == camera.canvas_height,
                0 <= y < height,
                0 <= x <= width,
                canvas_width(canvas) == width,
                canvas_height(canvas) == height,
                canvas_bytes(canvas).len() == 3 * (width * height),
                forall|xa: int, ya: int|
                    0 <= xa < width && 0 <= ya && comes_before(xa, ya, x as int, y as int) ==> (
                    #[trigger] pixel_color(*camera, scene.spheres@, scene.lights@, xa, ya)
                        matches Ok(color) && holds_color(
                        canvas_bytes(canvas),
                        byte_index(xa, ya, width as int),
                        color,
                    )),
            decreases width - x,
        {
            let color: Color = match render_pixel(camera, scene, x, y) {
                Err(e) => {
                    return Err(e);
                },
                Ok(color) => color,
            };
            proof {
                lemma_pixel_fits(x as int, y as int, width as int, height as int);
            }
            put_pixel(&mut canvas, x, y, color);
            proof {
                assert forall|xa: int, ya: int|
                    0 <= xa < width && 0 <= ya && comes_before(
                        xa,
                        ya,
                        x + 1,
                        y as int,
                    ) implies (#[trigger] pixel_color(
                    *camera,
                    scene.spheres@,
                    scene.lights@,
                    xa,
                    ya,
                ) matches Ok(c) && holds_color(
                    canvas_bytes(canvas),
                    byte_index(xa, ya, width as int),
                    c,
                )) by {
                    if comes_before(xa, ya, x as int, y as int) {
                        lemma_byte_index(xa, ya, x as int, y as int, width as int, height as int);
                    }
                }
            }
            x = x + 1;
        }
        y = y + 1;
    }
    Ok(into_bytes(canvas))
}

} // verus!
