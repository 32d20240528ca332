//! A decoded image and its texels.
//!
//! A texture stores three bytes for each texel, red, green and blue, row by
//! row from the top left. Sampling by real coordinates is the caller's
//! arithmetic: the library hands out the texel at a column and row and the
//! four texels between which a sample lies, and blends them with the
//! caller's two mixing functions, across and then down.

use vstd::prelude::*;
use crate::canvas::Rgb;

verus! {

/// The error with which the image decoder refuses its input.
#[verifier::external_type_specification]
#[verifier::external_body]
pub struct ExImageError(image::ImageError);

/// Why a texture could not be made.
#[derive(Clone, Copy, Debug, PartialEq, Eq, Structural)]
pub enum TextureError {
    /// The decoder did not return an image.
    Decode,
}

/// What a texture holds, as mathematics.
pub struct TextureView {
    pub width: int,
    pub height: int,
    pub texels: Seq<u8>,
}

impl TextureView {
    /// There are three bytes for each texel.
    pub open spec fn wf(self) -> bool {
        &&& 0 <= self.width
        &&& 0 <= self.height
        &&& self.texels.len() == self.width * self.height * 3
    }

    /// The texel in column `x` of row `y`.
    pub open spec fn texel(self, x: int, y: int) -> Rgb {
        let at = (y * self.width + x) * 3;
        Rgb {
            red: self.texels[at] as i64,
            green: self.texels[at + 1] as i64,
            blue: self.texels[at + 2] as i64,
        }
    }

    /// The column right of `x`, or `x` itself at the right edge.
    pub open spec fn next_column(self, x: int) -> int {
        if x + 1 < self.width {
            x + 1
        } else {
            self.width - 1
        }
    }

    /// The row below `y`, or `y` itself at the bottom edge.
    pub open spec fn next_row(self, y: int) -> int {
        if y + 1 < self.height {
            y + 1
        } else {
            self.height - 1
        }
    }

    /// `color` is blended from the four texels whose top left one is in
    /// column `x` of row `y`: `across` mixes the two upper texels, left with
    /// right, and the two lower ones likewise, and `down` mixes what came of
    /// the upper pair with what came of the lower pair.
    pub open spec fn is_blend<C, FX: Fn(Rgb, Rgb) -> C, FY: Fn(C, C) -> C>(
        self,
        x: int,
        y: int,
        across: FX,
        down: FY,
        color: C,
    ) -> bool {
        exists|top: C, bottom: C|
            {
                &&& across.ensures((self.texel(x, y), self.texel(self.next_column(x), y)), top)
                &&& across.ensures(
                    (self.texel(x, self.next_row(y)), self.texel(self.next_column(x), self.next_row(y))),
                    bottom,
                )
                &&& #[trigger] down.ensures((top, bottom), color)
            }
    }
}

/// An image to cover triangles with.
#[derive(Debug, PartialEq)]
pub struct Texture {
    width: u32,
    height: u32,
    data: Vec<u8>,
}

impl View for Texture {
    type V = TextureView;

    closed spec fn view(&self) -> TextureView {
        TextureView { width: self.width as int, height: self.height as int, texels: self.data@ }
    }
}

/// Calls the `image` crate: a reader made by `Reader::with_format` for the
/// JPEG format decodes the bytes, `into_rgb8` turns the image into RGB with
/// eight bits for each channel, and `into_raw` hands out its buffer. Whether
/// the decoder succeeds, and with which pixels, depends on more than the
/// bytes, so the contract claims one thing only: a buffer that comes back
/// holds three bytes for each pixel of the width and height that come with
/// it, as the image buffers of the crate are made.
#[verifier::external_body]
fn decode_jpeg(bytes: &[u8]) -> (decoded: Result<(u32, u32, Vec<u8>), image::ImageError>)
    ensures
        decoded matches Ok((width, height, data)) ==> data@.len() == width * height * 3,
{
    let reader = image::io::Reader::with_format(std::io::Cursor::new(bytes), image::ImageFormat::Jpeg);
    let img = reader.decode()?.into_rgb8();
    Ok((img.width(), img.height(), img.into_raw()))
}

/// A cell of a `width` by `height` grid of texels starts inside the buffer.
proof fn lemma_texel_in_buffer(width: int, height: int, x: int, y: int)
    requires
        0 <= x < width,
        0 <= y < height,
    ensures
        0 <= y * width + x < width * height,
        0 <= (y * width + x) * 3,
        (y * width + x) * 3 + 3 <= width * height * 3,
{
    assert(y * width <= (height - 1) * width) by (nonlinear_arith)
        requires
            0 <= y <= height - 1,
            0 <= width,
    ;
    assert((height - 1) * width == width * height - width) by (nonlinear_arith);
    assert(0 <= y * width) by (nonlinear_arith)
        requires
            0 <= y,
            0 <= width,
    ;
}

impl Clone for Texture {
    fn clone(&self) -> (copy: Texture)
        ensures
            copy@ == self@,
    {
        proof {
            use_type_invariant(self);
        }
        Texture { width: self.width, height: self.height, data: self.data.clone() }
    }
}

impl Texture {
    #[verifier::type_invariant]
    spec fn inv(self) -> bool {
        self@.wf()
    }

    /// A texture from a JPEG file, as the decoder returns it; `Decode` when
    /// the decoder returns none.
    pub fn from_bytes(bytes: &[u8]) -> (texture: Result<Texture, TextureError>)
        ensures
            texture matches Ok(decoded) ==> decoded@.wf(),
            texture matches Err(error) ==> error == TextureError::Decode,
    {
        match decode_jpeg(bytes) {
            Err(_) => Err(TextureError::Decode),
            Ok((width, height, data)) => match Texture::from_rgb(width, height, data) {
                Some(texture) => Ok(texture),
                None => Err(TextureError::Decode),
            },
        }
    }

    /// A texture of `width` by `height` texels from their bytes, three for
    /// each texel, row by row. `None` when the number of bytes is another.
    pub fn from_rgb(width: u32, height: u32, data: Vec<u8>) -> (texture: Option<Texture>)
        ensures
            match texture {
                Some(texture) => {
                    &&& data.len() == width * height * 3
                    &&& texture@.wf()
                    &&& texture@ == (TextureView {
                        width: width as int,
                        height: height as int,
                        texels: data@,
                    })
                },
                None => data.len() != width * height * 3,
            },
    {
        assert(width * height <= 0xffff_ffff * 0xffff_ffff) by (nonlinear_arith)
            requires
                0 <= width <= 0xffff_ffff,
                0 <= height <= 0xffff_ffff,
        ;
        let expected: u128 = width as u128 * height as u128 * 3;
        if data.len() as u128 == expected {
            Some(Texture { width, height, data })
        } else {
            None
        }
    }

    pub fn width(&self) -> (width: u32)
        ensures
            self@.wf(),
            width == self@.width,
    {
        proof {
            use_type_invariant(self);
        }
        self.width
    }

    pub fn height(&self) -> (height: u32)
        ensures
            self@.wf(),
            height == self@.height,
    {
        proof {
            use_type_invariant(self);
        }
        self.height
    }

    /// The colour of the texel in column `x` of row `y`.
    pub fn pixel_color(&self, x: u32, y: u32) -> (color: Rgb)
        requires
            x < self@.width,
            y < self@.height,
        ensures
            color == self@.texel(x as int, y as int),
    {
        proof {
            use_type_invariant(self);
            lemma_texel_in_buffer(self.width as int, self.height as int, x as int, y as int);
            assert(self.width * self.height * 3 == self.data.len());
        }
        let at: usize = (y as usize * self.width as usize + x as usize) * 3;
        Rgb { red: self.data[at] as i64, green: self.data[at + 1] as i64, blue: self.data[at + 2] as i64 }
    }

    /// The four texels between which a sample with its top left at column
    /// `x` of row `y` is blended: top left, top right, bottom left, bottom
    /// right. At the right and bottom edge the texel of the edge is repeated.
    pub fn texel_corners(&self, x: u32, y: u32) -> (corners: [Rgb; 4])
        requires
            x < self@.width,
            y < self@.height,
        ensures
            corners[0] == self@.texel(x as int, y as int),
            corners[1] == self@.texel(self@.next_column(x as int), y as int),
            corners[2] == self@.texel(x as int, self@.next_row(y as int)),
            corners[3] == self@.texel(self@.next_column(x as int), self@.next_row(y as int)),
    {
        let x1: u32 = if x < self.width - 1 {
            x + 1
        } else {
            self.width - 1
        };
        let y1: u32 = if y < self.height - 1 {
            y + 1
        } else {
            self.height - 1
        };
        [
            self.pixel_color(x, y),
            self.pixel_color(x1, y),
            self.pixel_color(x, y1),
            self.pixel_color(x1, y1),
        ]
    }

    /// The colour of a sample that lies between four texels, the top left
    /// one in column `x` of row `y`: the two upper texels are mixed, the two
    /// lower ones are mixed in the same way, and the two results are mixed.
    /// How much each side weighs is the caller's arithmetic.
    pub fn texel_color<C, FX: Fn(Rgb, Rgb) -> C, FY: Fn(C, C) -> C>(
        &self,
        x: u32,
        y: u32,
        across: FX,
        down: FY,
    ) -> (color: C)
        requires
            x < self@.width,
            y < self@.height,
            forall|left: Rgb, right: Rgb| across.requires((left, right)),
            forall|top: C, bottom: C| down.requires((top, bottom)),
        ensures
            self@.is_blend(x as int, y as int, across, down, color),
    {
        let corners = self.texel_corners(x, y);
        let top = across(corners[0], corners[1]);
        let bottom = across(corners[2], corners[3]);
        down(top, bottom)
    }
}

/// A sample that lies on a texel has the colour of the texel: where the left
/// and the upper side weigh all, what `across` returns stands for its left
/// argument and `down` returns its upper one, and the blend is what stands
/// for the top left texel.
pub proof fn lemma_blend_on_a_texel<C, FX: Fn(Rgb, Rgb) -> C, FY: Fn(C, C) -> C>(
    texture: TextureView,
    x: int,
    y: int,
    across: FX,
    down: FY,
    color: C,
    stands_for: spec_fn(Rgb) -> C,
)
    requires
        texture.is_blend(x, y, across, down, color),
        forall|left: Rgb, right: Rgb, mixed: C| #[trigger]
            across.ensures((left, right), mixed) ==> mixed == stands_for(left),
        forall|top: C, bottom: C, mixed: C| #[trigger]
            down.ensures((top, bottom), mixed) ==> mixed == top,
    ensures
        color == stands_for(texture.texel(x, y)),
{
}

} // verus!
