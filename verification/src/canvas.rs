//! The pixel canvas: an RGBA byte buffer and a depth buffer of the same
//! extent, written pixel by pixel under a depth test.
//!
//! Pixel coordinates are centred: `(0, 0)` is the middle of the canvas, `x`
//! grows to the right and `y` grows upwards. The byte buffer starts at the top
//! left and runs row by row, four bytes per pixel in the order red, green,
//! blue, alpha.
//!
//! A depth is an integer key ordered like the reciprocal of the distance from
//! the camera: the greater key is the closer point. `FARTHEST` is the key of
//! a cell that nothing has been drawn to.

use vstd::prelude::*;
use crate::shading::ShadingModel;
use crate::shading::span_len;

verus! {

/// The depth key below every other: the depth of a cell that holds no pixel.
pub const FARTHEST: i64 = i64::MIN;

/// A colour before it is stored: three channels of any size, cut down to the
/// range of a byte when the pixel is written.
#[derive(Clone, Copy, Debug, PartialEq, Eq, Structural)]
pub struct Rgb {
    pub red: i64,
    pub green: i64,
    pub blue: i64,
}

/// The byte that stores a channel: the channel itself from 0 to 255, 0 below
/// and 255 above.
pub open spec fn channel_byte(channel: int) -> u8 {
    if channel < 0 {
        0u8
    } else if channel > 255 {
        255u8
    } else {
        channel as u8
    }
}

/// Column of the buffer that holds the centred coordinate `x`.
pub open spec fn buffer_column(width: int, x: int) -> int {
    width / 2 + x
}

/// Row of the buffer, counted from the top, that holds the centred
/// coordinate `y`.
pub open spec fn buffer_row(height: int, y: int) -> int {
    height / 2 - y - 1
}

/// What a canvas holds, as mathematics.
pub struct CanvasView {
    pub height: int,
    pub width: int,
    pub pixels: Seq<u8>,
    pub depths: Seq<i64>,
    pub shading_model: ShadingModel,
}

impl CanvasView {
    /// The buffers have the extent that the dimensions give.
    pub open spec fn wf(self) -> bool {
        &&& 0 <= self.width
        &&& 0 <= self.height
        &&& self.pixels.len() == self.width * self.height * 4
        &&& self.depths.len() == self.width * self.height
    }

    /// The centred coordinate `(x, y)` lies on the canvas.
    pub open spec fn covers(self, x: int, y: int) -> bool {
        &&& 0 <= buffer_column(self.width, x) < self.width
        &&& 0 <= buffer_row(self.height, y) < self.height
    }

    /// Index in the depth buffer of the cell at `(x, y)`.
    pub open spec fn cell(self, x: int, y: int) -> int {
        buffer_row(self.height, y) * self.width + buffer_column(self.width, x)
    }

    /// The pixel at `(x, y)` is written: it lies on the canvas and `depth` is
    /// strictly closer than what the cell holds.
    pub open spec fn accepts(self, x: int, y: int, depth: i64) -> bool {
        self.covers(x, y) && depth > self.depths[self.cell(x, y)]
    }

    /// The canvas after an attempt to write one pixel.
    pub open spec fn put_pixel(self, x: int, y: int, depth: i64, color: Rgb) -> CanvasView {
        if self.accepts(x, y, depth) {
            let cell = self.cell(x, y);
            CanvasView {
                pixels: self.pixels.update(4 * cell, channel_byte(color.red as int)).update(
                    4 * cell + 1,
                    channel_byte(color.green as int),
                ).update(4 * cell + 2, channel_byte(color.blue as int)).update(
                    4 * cell + 3,
                    255u8,
                ),
                depths: self.depths.update(cell, depth),
                ..self
            }
        } else {
            self
        }
    }

    /// The canvas after the first `count` pixels of a scanline were attempted,
    /// from left to right: pixel `k` at `(x_left + k, y)` with depth
    /// `depths[k]` and colour `colors[k]`.
    pub open spec fn draw_span(
        self,
        y: int,
        x_left: int,
        depths: Seq<i64>,
        colors: Seq<Rgb>,
        count: nat,
    ) -> CanvasView
        decreases count,
    {
        if count == 0 {
            self
        } else {
            self.draw_span(y, x_left, depths, colors, (count - 1) as nat).put_pixel(
                x_left + count - 1,
                y,
                depths[count - 1],
                colors[count - 1],
            )
        }
    }
}

/// What a span holds, as mathematics.
pub struct SpanView {
    pub y: int,
    pub x_left: int,
    pub x_right: int,
    pub depths: Seq<i64>,
    pub colors: Seq<Rgb>,
}

impl SpanView {
    /// There is a depth and a colour for each pixel from `x_left` to
    /// `x_right`.
    pub open spec fn wf(self) -> bool {
        &&& span_len(self.x_left, self.x_right) <= self.depths.len()
        &&& span_len(self.x_left, self.x_right) <= self.colors.len()
    }
}

/// The pixels of one triangle on one scanline: the row `y`, the columns from
/// `x_left` to `x_right`, and for each of them in turn a depth and a colour.
#[derive(Debug, PartialEq)]
pub struct Span {
    y: i64,
    x_left: i64,
    x_right: i64,
    depths: Vec<i64>,
    colors: Vec<Rgb>,
}

impl View for Span {
    type V = SpanView;

    closed spec fn view(&self) -> SpanView {
        SpanView {
            y: self.y as int,
            x_left: self.x_left as int,
            x_right: self.x_right as int,
            depths: self.depths@,
            colors: self.colors@,
        }
    }
}

impl Span {
    #[verifier::type_invariant]
    spec fn inv(self) -> bool {
        self@.wf()
    }

    /// A span from its parts, or `None` when a depth or a colour is missing
    /// for one of its pixels.
    pub fn new(y: i64, x_left: i64, x_right: i64, depths: Vec<i64>, colors: Vec<Rgb>) -> (span:
        Option<Span>)
        ensures
            match span {
                Some(span) => {
                    &&& span@.wf()
                    &&& span@ == (SpanView {
                        y: y as int,
                        x_left: x_left as int,
                        x_right: x_right as int,
                        depths: depths@,
                        colors: colors@,
                    })
                },
                None => !(SpanView {
                    y: y as int,
                    x_left: x_left as int,
                    x_right: x_right as int,
                    depths: depths@,
                    colors: colors@,
                }).wf(),
            },
    {
        let enough: bool = if x_left > x_right {
            true
        } else {
            let last: i128 = x_right as i128 - x_left as i128;
            last < depths.len() as i128 && last < colors.len() as i128
        };
        if enough {
            Some(Span { y, x_left, x_right, depths, colors })
        } else {
            None
        }
    }
}

impl CanvasView {
    /// The canvas after a span was drawn.
    pub open spec fn draw(self, span: SpanView) -> CanvasView {
        self.draw_span(
            span.y,
            span.x_left,
            span.depths,
            span.colors,
            span_len(span.x_left, span.x_right),
        )
    }

    /// The canvas after the first `count` spans of a list were drawn, one
    /// after the other.
    pub open spec fn draw_spans(self, spans: Seq<Span>, count: nat) -> CanvasView
        decreases count,
    {
        if count == 0 {
            self
        } else {
            self.draw_spans(spans, (count - 1) as nat).draw(spans[count - 1]@)
        }
    }
}

/// A canvas of `width` by `height` pixels.
pub struct Canvas {
    height: i64,
    width: i64,
    pixels: Vec<u8>,
    depth_buffer: Vec<i64>,
    shading_model: ShadingModel,
}

impl View for Canvas {
    type V = CanvasView;

    closed spec fn view(&self) -> CanvasView {
        CanvasView {
            height: self.height as int,
            width: self.width as int,
            pixels: self.pixels@,
            depths: self.depth_buffer@,
            shading_model: self.shading_model,
        }
    }
}

/// A cell inside a `width` by `height` grid has an index inside the buffer.
proof fn lemma_cell_in_buffer(width: int, height: int, row: int, column: int)
    requires
        0 <= row < height,
        0 <= column < width,
    ensures
        0 <= row * width <= row * width + column < width * height,
        width <= width * height,
        row < width * height,
{
    assert(row * width <= (height - 1) * width) by (nonlinear_arith)
        requires
            0 <= row <= height - 1,
            0 <= width,
    ;
    assert((height - 1) * width == width * height - width) by (nonlinear_arith);
    assert(0 <= row * width) by (nonlinear_arith)
        requires
            0 <= row,
            0 <= width,
    ;
    assert(width <= width * height && height <= width * height) by (nonlinear_arith)
        requires
            1 <= width,
            1 <= height,
    ;
}

impl Canvas {
    #[verifier::type_invariant]
    spec fn inv(self) -> bool {
        self@.wf()
    }

    /// A transparent black canvas on which nothing has a depth yet.
    pub fn new(height: usize, width: usize, shading_model: ShadingModel) -> (canvas: Canvas)
        requires
            width <= i64::MAX,
            height <= i64::MAX,
            width * height * 4 <= usize::MAX,
        ensures
            canvas@.wf(),
            canvas@.height == height,
            canvas@.width == width,
            canvas@.shading_model == shading_model,
            canvas@.pixels == Seq::new((width * height * 4) as nat, |i: int| 0u8),
            canvas@.depths == Seq::new((width * height) as nat, |i: int| FARTHEST),
            alpha_marks_drawn(canvas@),
    {
        assert(width * height <= width * height * 4) by (nonlinear_arith);
        let dim: usize = width * height;
        let pixel_bytes: usize = dim * 4;
        let mut pixels: Vec<u8> = Vec::with_capacity(pixel_bytes);
        let mut i: usize = 0;
        while i < pixel_bytes
            invariant
                i <= pixel_bytes,
                pixels@ == Seq::new(i as nat, |i: int| 0u8),
            decreases pixel_bytes - i,
        {
            pixels.push(0);
            i = i + 1;
            assert(pixels@ =~= Seq::new(i as nat, |i: int| 0u8));
        }
        let mut depth_buffer: Vec<i64> = Vec::with_capacity(dim);
        let mut j: usize = 0;
        while j < dim
            invariant
                j <= dim,
                depth_buffer@ == Seq::new(j as nat, |i: int| FARTHEST),
            decreases dim - j,
        {
            depth_buffer.push(FARTHEST);
            j = j + 1;
            assert(depth_buffer@ =~= Seq::new(j as nat, |i: int| FARTHEST));
        }
        Canvas { height: height as i64, width: width as i64, pixels, depth_buffer, shading_model }
    }

    /// Writes one pixel at the centred coordinate `(x, y)` if it lies on the
    /// canvas and is strictly closer than what is there; otherwise nothing
    /// changes. A written pixel is opaque.
    pub fn put_pixel(&mut self, x: i64, y: i64, depth: i64, color: Rgb)
        ensures
            final(self)@.wf(),
            final(self)@ == old(self)@.put_pixel(x as int, y as int, depth, color),
    {
        proof {
            use_type_invariant(&*self);
        }
        let half_width: i64 = self.width / 2;
        let half_height: i64 = self.height / 2;
        if x < -half_width || x >= self.width - half_width {
            return ;
        }
        if y >= half_height || y < half_height - self.height {
            return ;
        }
        let column: i64 = half_width + x;
        let row: i64 = half_height - y - 1;
        proof {
            lemma_cell_in_buffer(self.width as int, self.height as int, row as int, column as int);
            assert(self.width * self.height == self.depth_buffer.len());
            assert(self.width * self.height * 4 == self.pixels.len());
        }
        let cell: usize = row as usize * self.width as usize + column as usize;
        if depth > self.depth_buffer[cell] {
            let offset: usize = cell * 4;
            self.pixels[offset] = clamp_channel(color.red);
            self.pixels[offset + 1] = clamp_channel(color.green);
            self.pixels[offset + 2] = clamp_channel(color.blue);
            self.pixels[offset + 3] = 255;
            self.depth_buffer[cell] = depth;
        }
    }

    pub fn width(&self) -> (width: i64)
        ensures
            self@.wf(),
            width == self@.width,
    {
        proof {
            use_type_invariant(self);
        }
        self.width
    }

    pub fn height(&self) -> (height: i64)
        ensures
            self@.wf(),
            height == self@.height,
    {
        proof {
            use_type_invariant(self);
        }
        self.height
    }

    pub fn shading_model(&self) -> (shading_model: ShadingModel)
        ensures
            shading_model == self@.shading_model,
    {
        self.shading_model
    }

    /// The bytes of the image, row by row from the top left.
    pub fn pixels(&self) -> (pixels: &Vec<u8>)
        ensures
            pixels@ == self@.pixels,
    {
        &self.pixels
    }

    /// The depth of every cell, row by row from the top left.
    pub fn depth_buffer(&self) -> (depths: &Vec<i64>)
        ensures
            depths@ == self@.depths,
    {
        &self.depth_buffer
    }

    /// Gives up the canvas for the bytes of its image.
    pub fn into_pixels(self) -> (pixels: Vec<u8>)
        ensures
            pixels@ == self@.pixels,
    {
        self.pixels
    }

    /// Writes the scanline `y` from `x_left` to `x_right`, both included, one
    /// pixel after the other from the left: pixel `k` of the span has depth
    /// `depths[k]` and colour `colors[k]`. With `x_left > x_right` the span is
    /// empty and nothing changes.
    pub fn draw_span(
        &mut self,
        y: i64,
        x_left: i64,
        x_right: i64,
        depths: &Vec<i64>,
        colors: &Vec<Rgb>,
    )
        requires
            span_len(x_left as int, x_right as int) <= depths.len(),
            span_len(x_left as int, x_right as int) <= colors.len(),
        ensures
            final(self)@.wf(),
            final(self)@ == old(self)@.draw_span(
                y as int,
                x_left as int,
                depths@,
                colors@,
                span_len(x_left as int, x_right as int),
            ),
    {
        proof {
            use_type_invariant(&*self);
        }
        if x_left > x_right {
            return ;
        }
        let mut x: i64 = x_left;
        let mut k: usize = 0;
        loop
            invariant_except_break
                x_left <= x <= x_right,
                k == x - x_left,
                self@ == old(self)@.draw_span(y as int, x_left as int, depths@, colors@, k as nat),
            invariant
                self@.wf(),
                span_len(x_left as int, x_right as int) <= depths.len(),
                span_len(x_left as int, x_right as int) <= colors.len(),
            ensures
                self@ == old(self)@.draw_span(
                    y as int,
                    x_left as int,
                    depths@,
                    colors@,
                    span_len(x_left as int, x_right as int),
                ),
            decreases x_right - x,
        {
            self.put_pixel(x, y, depths[k], colors[k]);
            if x == x_right {
                break ;
            }
            x = x + 1;
            k = k + 1;
        }
    }

    /// Draws the spans of a list one after the other: the scanlines of a
    /// triangle, from its first row to its last.
    pub fn draw_spans(&mut self, spans: &Vec<Span>)
        ensures
            final(self)@.wf(),
            final(self)@ == old(self)@.draw_spans(spans@, spans.len() as nat),
    {
        proof {
            use_type_invariant(&*self);
        }
        let mut i: usize = 0;
        while i < spans.len()
            invariant
                i <= spans.len(),
                self@.wf(),
                self@ == old(self)@.draw_spans(spans@, i as nat),
            decreases spans.len() - i,
        {
            let span = &spans[i];
            proof {
                use_type_invariant(span);
            }
            self.draw_span(span.y, span.x_left, span.x_right, &span.depths, &span.colors);
            i = i + 1;
        }
    }
}

/// Cuts a channel down to a byte.
pub fn clamp_channel(channel: i64) -> (byte: u8)
    ensures
        byte == channel_byte(channel as int),
{
    if channel < 0 {
        0
    } else if channel > 255 {
        255
    } else {
        channel as u8
    }
}

/// Every cell that was never drawn to is transparent black, and every cell
/// that was drawn to is opaque.
pub open spec fn alpha_marks_drawn(canvas: CanvasView) -> bool {
    forall|cell: int|
        0 <= cell < canvas.depths.len() ==> if #[trigger] canvas.depths[cell] == FARTHEST {
            &&& canvas.pixels[4 * cell] == 0
            &&& canvas.pixels[4 * cell + 1] == 0
            &&& canvas.pixels[4 * cell + 2] == 0
            &&& canvas.pixels[4 * cell + 3] == 0
        } else {
            canvas.pixels[4 * cell + 3] == 255
        }
}

/// Writing a pixel keeps the extent of the buffers, changes no cell but its
/// own, and never lowers the depth of a cell.
pub proof fn lemma_put_pixel_frame(canvas: CanvasView, x: int, y: int, depth: i64, color: Rgb)
    requires
        canvas.wf(),
    ensures
        canvas.put_pixel(x, y, depth, color).wf(),
        canvas.put_pixel(x, y, depth, color).width == canvas.width,
        canvas.put_pixel(x, y, depth, color).height == canvas.height,
        canvas.put_pixel(x, y, depth, color).shading_model == canvas.shading_model,
        canvas.covers(x, y) ==> 0 <= canvas.cell(x, y) < canvas.depths.len(),
        forall|cell: int|
            0 <= cell < canvas.depths.len() ==> #[trigger] canvas.put_pixel(
                x,
                y,
                depth,
                color,
            ).depths[cell] >= canvas.depths[cell],
        forall|cell: int|
            0 <= cell < canvas.depths.len() && !(canvas.covers(x, y) && cell == canvas.cell(x, y))
                ==> #[trigger] canvas.put_pixel(x, y, depth, color).depths[cell]
                == canvas.depths[cell],
        forall|byte: int|
            0 <= byte < canvas.pixels.len() && !(canvas.covers(x, y) && 4 * canvas.cell(x, y)
                <= byte < 4 * canvas.cell(x, y) + 4) ==> #[trigger] canvas.put_pixel(
                x,
                y,
                depth,
                color,
            ).pixels[byte] == canvas.pixels[byte],
{
    if canvas.covers(x, y) {
        lemma_cell_in_buffer(
            canvas.width,
            canvas.height,
            buffer_row(canvas.height, y),
            buffer_column(canvas.width, x),
        );
    }
}

/// A written pixel holds the colour cut down to bytes, is opaque, and has the
/// depth it was written with; a refused pixel leaves the canvas as it was.
pub proof fn lemma_put_pixel_result(canvas: CanvasView, x: int, y: int, depth: i64, color: Rgb)
    requires
        canvas.wf(),
    ensures
        !canvas.accepts(x, y, depth) ==> canvas.put_pixel(x, y, depth, color) == canvas,
        canvas.accepts(x, y, depth) ==> {
            let after = canvas.put_pixel(x, y, depth, color);
            let cell = canvas.cell(x, y);
            &&& after.depths[cell] == depth
            &&& after.pixels[4 * cell] == channel_byte(color.red as int)
            &&& after.pixels[4 * cell + 1] == channel_byte(color.green as int)
            &&& after.pixels[4 * cell + 2] == channel_byte(color.blue as int)
            &&& after.pixels[4 * cell + 3] == 255
        },
{
    if canvas.covers(x, y) {
        lemma_cell_in_buffer(
            canvas.width,
            canvas.height,
            buffer_row(canvas.height, y),
            buffer_column(canvas.width, x),
        );
    }
}

/// A second pixel at the depth of the one that a cell holds is refused: the
/// first one written stays.
pub proof fn lemma_same_depth_keeps_first(
    canvas: CanvasView,
    x: int,
    y: int,
    depth: i64,
    first: Rgb,
    second: Rgb,
)
    requires
        canvas.wf(),
    ensures
        canvas.put_pixel(x, y, depth, first).put_pixel(x, y, depth, second) == canvas.put_pixel(
            x,
            y,
            depth,
            first,
        ),
{
    lemma_put_pixel_frame(canvas, x, y, depth, first);
    lemma_put_pixel_result(canvas, x, y, depth, first);
}

/// A closer pixel written after a farther one replaces it.
pub proof fn lemma_closer_replaces_farther(
    canvas: CanvasView,
    x: int,
    y: int,
    farther: i64,
    closer: i64,
    first: Rgb,
    second: Rgb,
)
    requires
        canvas.wf(),
        canvas.accepts(x, y, farther),
        farther < closer,
    ensures
        canvas.put_pixel(x, y, farther, first).put_pixel(x, y, closer, second) == canvas.put_pixel(
            x,
            y,
            closer,
            second,
        ),
{
    lemma_put_pixel_frame(canvas, x, y, farther, first);
    lemma_put_pixel_result(canvas, x, y, farther, first);
    let once = canvas.put_pixel(x, y, farther, first);
    let twice = once.put_pixel(x, y, closer, second);
    let direct = canvas.put_pixel(x, y, closer, second);
    assert(twice.pixels =~= direct.pixels);
    assert(twice.depths =~= direct.depths);
}

/// A pixel that is not closer than the one written before it changes nothing.
pub proof fn lemma_farther_loses_to_closer(
    canvas: CanvasView,
    x: int,
    y: int,
    closer: i64,
    farther: i64,
    first: Rgb,
    second: Rgb,
)
    requires
        canvas.wf(),
        canvas.accepts(x, y, closer),
        farther <= closer,
    ensures
        canvas.put_pixel(x, y, closer, first).put_pixel(x, y, farther, second) == canvas.put_pixel(
            x,
            y,
            closer,
            first,
        ),
{
    lemma_put_pixel_frame(canvas, x, y, closer, first);
    lemma_put_pixel_result(canvas, x, y, closer, first);
}

/// Writing a pixel keeps undrawn cells transparent and drawn cells opaque.
pub proof fn lemma_put_pixel_keeps_alpha(
    canvas: CanvasView,
    x: int,
    y: int,
    depth: i64,
    color: Rgb,
)
    requires
        canvas.wf(),
        alpha_marks_drawn(canvas),
    ensures
        alpha_marks_drawn(canvas.put_pixel(x, y, depth, color)),
{
    lemma_put_pixel_frame(canvas, x, y, depth, color);
    lemma_put_pixel_result(canvas, x, y, depth, color);
    let after = canvas.put_pixel(x, y, depth, color);
    assert forall|cell: int| 0 <= cell < after.depths.len() implies if #[trigger] after.depths[cell]
        == FARTHEST {
        &&& after.pixels[4 * cell] == 0
        &&& after.pixels[4 * cell + 1] == 0
        &&& after.pixels[4 * cell + 2] == 0
        &&& after.pixels[4 * cell + 3] == 0
    } else {
        after.pixels[4 * cell + 3] == 255
    } by {
        if canvas.accepts(x, y, depth) && cell == canvas.cell(x, y) {
        } else {
            assert(after.depths[cell] == canvas.depths[cell]);
            assert(after.pixels[4 * cell] == canvas.pixels[4 * cell]);
            assert(after.pixels[4 * cell + 1] == canvas.pixels[4 * cell + 1]);
            assert(after.pixels[4 * cell + 2] == canvas.pixels[4 * cell + 2]);
            assert(after.pixels[4 * cell + 3] == canvas.pixels[4 * cell + 3]);
        }
    }
}

/// No pixel of the first `count` of a span would be written: each lies off
/// the canvas or is no closer than what its cell holds.
pub open spec fn span_settled(
    canvas: CanvasView,
    y: int,
    x_left: int,
    depths: Seq<i64>,
    count: nat,
) -> bool {
    forall|k: int| 0 <= k < count ==> !canvas.accepts(x_left + k, y, #[trigger] depths[k])
}

/// Drawing a span keeps the extent of the canvas, never lowers a depth, and
/// keeps undrawn cells transparent and drawn cells opaque.
pub proof fn lemma_draw_span_frame(
    canvas: CanvasView,
    y: int,
    x_left: int,
    depths: Seq<i64>,
    colors: Seq<Rgb>,
    count: nat,
)
    requires
        canvas.wf(),
    ensures
        canvas.draw_span(y, x_left, depths, colors, count).wf(),
        canvas.draw_span(y, x_left, depths, colors, count).width == canvas.width,
        canvas.draw_span(y, x_left, depths, colors, count).height == canvas.height,
        canvas.draw_span(y, x_left, depths, colors, count).shading_model == canvas.shading_model,
        forall|cell: int|
            0 <= cell < canvas.depths.len() ==> #[trigger] canvas.draw_span(
                y,
                x_left,
                depths,
                colors,
                count,
            ).depths[cell] >= canvas.depths[cell],
        alpha_marks_drawn(canvas) ==> alpha_marks_drawn(
            canvas.draw_span(y, x_left, depths, colors, count),
        ),
    decreases count,
{
    if count > 0 {
        let before = canvas.draw_span(y, x_left, depths, colors, (count - 1) as nat);
        lemma_draw_span_frame(canvas, y, x_left, depths, colors, (count - 1) as nat);
        lemma_put_pixel_frame(before, x_left + count - 1, y, depths[count - 1], colors[count - 1]);
        if alpha_marks_drawn(canvas) {
            lemma_put_pixel_keeps_alpha(
                before,
                x_left + count - 1,
                y,
                depths[count - 1],
                colors[count - 1],
            );
        }
    }
}

/// A span of which no pixel would be written leaves the canvas as it was.
pub proof fn lemma_settled_span_changes_nothing(
    canvas: CanvasView,
    y: int,
    x_left: int,
    depths: Seq<i64>,
    colors: Seq<Rgb>,
    count: nat,
)
    requires
        span_settled(canvas, y, x_left, depths, count),
    ensures
        canvas.draw_span(y, x_left, depths, colors, count) == canvas,
    decreases count,
{
    if count > 0 {
        assert(!canvas.accepts(x_left + (count - 1), y, depths[count - 1]));
        lemma_settled_span_changes_nothing(canvas, y, x_left, depths, colors, (count - 1) as nat);
    }
}

/// Once a span is drawn, none of its pixels would be written again.
pub proof fn lemma_drawn_span_is_settled(
    canvas: CanvasView,
    y: int,
    x_left: int,
    depths: Seq<i64>,
    colors: Seq<Rgb>,
    count: nat,
)
    requires
        canvas.wf(),
    ensures
        span_settled(canvas.draw_span(y, x_left, depths, colors, count), y, x_left, depths, count),
    decreases count,
{
    if count > 0 {
        let last = count - 1;
        let before = canvas.draw_span(y, x_left, depths, colors, last as nat);
        let after = canvas.draw_span(y, x_left, depths, colors, count);
        lemma_drawn_span_is_settled(canvas, y, x_left, depths, colors, last as nat);
        lemma_draw_span_frame(canvas, y, x_left, depths, colors, last as nat);
        lemma_put_pixel_frame(before, x_left + last, y, depths[last], colors[last]);
        lemma_put_pixel_result(before, x_left + last, y, depths[last], colors[last]);
        assert forall|k: int| 0 <= k < count implies !after.accepts(
            x_left + k,
            y,
            #[trigger] depths[k],
        ) by {
            if k < last {
                assert(!before.accepts(x_left + k, y, depths[k]));
                if before.covers(x_left + k, y) {
                    lemma_cell_in_buffer(
                        before.width,
                        before.height,
                        buffer_row(before.height, y),
                        buffer_column(before.width, x_left + k),
                    );
                    assert(before.cell(x_left + k, y) != before.cell(x_left + last, y));
                    assert(after.depths[before.cell(x_left + k, y)] == before.depths[before.cell(
                        x_left + k,
                        y,
                    )]);
                }
            }
        }
    }
}

/// Drawing the same span a second time changes nothing: at equal depth the
/// pixels that are there stay.
pub proof fn lemma_draw_span_twice(
    canvas: CanvasView,
    y: int,
    x_left: int,
    depths: Seq<i64>,
    colors: Seq<Rgb>,
    count: nat,
)
    requires
        canvas.wf(),
    ensures
        canvas.draw_span(y, x_left, depths, colors, count).draw_span(
            y,
            x_left,
            depths,
            colors,
            count,
        ) == canvas.draw_span(y, x_left, depths, colors, count),
{
    lemma_drawn_span_is_settled(canvas, y, x_left, depths, colors, count);
    lemma_settled_span_changes_nothing(
        canvas.draw_span(y, x_left, depths, colors, count),
        y,
        x_left,
        depths,
        colors,
        count,
    );
}

/// A pixel that would not be written stays so whatever else is drawn: depths
/// only grow.
pub proof fn lemma_settled_pixel_stays(
    canvas: CanvasView,
    x: int,
    y: int,
    depth: i64,
    other_x: int,
    other_y: int,
    other_depth: i64,
    other_color: Rgb,
)
    requires
        canvas.wf(),
        !canvas.accepts(x, y, depth),
    ensures
        !canvas.put_pixel(other_x, other_y, other_depth, other_color).accepts(x, y, depth),
{
    lemma_put_pixel_frame(canvas, other_x, other_y, other_depth, other_color);
    if canvas.covers(x, y) {
        lemma_cell_in_buffer(
            canvas.width,
            canvas.height,
            buffer_row(canvas.height, y),
            buffer_column(canvas.width, x),
        );
    }
}

/// A span of which no pixel would be written stays so when another span is
/// drawn.
pub proof fn lemma_settled_span_stays(
    canvas: CanvasView,
    y: int,
    x_left: int,
    depths: Seq<i64>,
    count: nat,
    other: SpanView,
    other_count: nat,
)
    requires
        canvas.wf(),
        span_settled(canvas, y, x_left, depths, count),
    ensures
        span_settled(
            canvas.draw_span(other.y, other.x_left, other.depths, other.colors, other_count),
            y,
            x_left,
            depths,
            count,
        ),
    decreases other_count,
{
    if other_count > 0 {
        let last = other_count - 1;
        let before = canvas.draw_span(
            other.y,
            other.x_left,
            other.depths,
            other.colors,
            last as nat,
        );
        lemma_settled_span_stays(canvas, y, x_left, depths, count, other, last as nat);
        lemma_draw_span_frame(canvas, other.y, other.x_left, other.depths, other.colors, last as nat);
        let after = before.put_pixel(
            other.x_left + last,
            other.y,
            other.depths[last],
            other.colors[last],
        );
        assert forall|k: int| 0 <= k < count implies !after.accepts(
            x_left + k,
            y,
            #[trigger] depths[k],
        ) by {
            assert(!before.accepts(x_left + k, y, depths[k]));
            lemma_settled_pixel_stays(
                before,
                x_left + k,
                y,
                depths[k],
                other.x_left + last,
                other.y,
                other.depths[last],
                other.colors[last],
            );
        }
    }
}

/// Drawing spans keeps the extent of the canvas, never lowers a depth, and
/// keeps undrawn cells transparent and drawn cells opaque.
pub proof fn lemma_draw_spans_frame(canvas: CanvasView, spans: Seq<Span>, count: nat)
    requires
        canvas.wf(),
        count <= spans.len(),
    ensures
        canvas.draw_spans(spans, count).wf(),
        canvas.draw_spans(spans, count).width == canvas.width,
        canvas.draw_spans(spans, count).height == canvas.height,
        canvas.draw_spans(spans, count).shading_model == canvas.shading_model,
        forall|cell: int|
            0 <= cell < canvas.depths.len() ==> #[trigger] canvas.draw_spans(spans, count).depths[cell]
                >= canvas.depths[cell],
        alpha_marks_drawn(canvas) ==> alpha_marks_drawn(canvas.draw_spans(spans, count)),
    decreases count,
{
    if count > 0 {
        let before = canvas.draw_spans(spans, (count - 1) as nat);
        let span = spans[count - 1]@;
        lemma_draw_spans_frame(canvas, spans, (count - 1) as nat);
        lemma_draw_span_frame(
            before,
            span.y,
            span.x_left,
            span.depths,
            span.colors,
            span_len(span.x_left, span.x_right),
        );
    }
}

/// Once the first `count` spans of a list are drawn, no pixel of the first
/// `upto` of them would be written again.
proof fn lemma_drawn_spans_are_settled(canvas: CanvasView, spans: Seq<Span>, count: nat, upto: nat)
    requires
        canvas.wf(),
        upto <= count <= spans.len(),
    ensures
        forall|i: int|
            0 <= i < upto ==> span_settled(
                canvas.draw_spans(spans, count),
                (#[trigger] spans[i])@.y,
                spans[i]@.x_left,
                spans[i]@.depths,
                span_len(spans[i]@.x_left, spans[i]@.x_right),
            ),
    decreases count,
{
    if count > 0 {
        let before = canvas.draw_spans(spans, (count - 1) as nat);
        let last = spans[count - 1]@;
        let last_len = span_len(last.x_left, last.x_right);
        lemma_draw_spans_frame(canvas, spans, (count - 1) as nat);
        let after = canvas.draw_spans(spans, count);
        assert forall|i: int| 0 <= i < upto implies span_settled(
            after,
            (#[trigger] spans[i])@.y,
            spans[i]@.x_left,
            spans[i]@.depths,
            span_len(spans[i]@.x_left, spans[i]@.x_right),
        ) by {
            if i < count - 1 {
                lemma_drawn_spans_are_settled(canvas, spans, (count - 1) as nat, (count - 1) as nat);
                lemma_settled_span_stays(
                    before,
                    spans[i]@.y,
                    spans[i]@.x_left,
                    spans[i]@.depths,
                    span_len(spans[i]@.x_left, spans[i]@.x_right),
                    last,
                    last_len,
                );
            } else {
                lemma_drawn_span_is_settled(
                    before,
                    last.y,
                    last.x_left,
                    last.depths,
                    last.colors,
                    last_len,
                );
            }
        }
    }
}

/// Spans of which no pixel would be written leave the canvas as it was.
proof fn lemma_settled_spans_change_nothing(canvas: CanvasView, spans: Seq<Span>, count: nat)
    requires
        count <= spans.len(),
        forall|i: int|
            0 <= i < count ==> span_settled(
                canvas,
                (#[trigger] spans[i])@.y,
                spans[i]@.x_left,
                spans[i]@.depths,
                span_len(spans[i]@.x_left, spans[i]@.x_right),
            ),
    ensures
        canvas.draw_spans(spans, count) == canvas,
    decreases count,
{
    if count > 0 {
        lemma_settled_spans_change_nothing(canvas, spans, (count - 1) as nat);
        let last = spans[count - 1];
        lemma_settled_span_changes_nothing(
            canvas,
            last@.y,
            last@.x_left,
            last@.depths,
            last@.colors,
            span_len(last@.x_left, last@.x_right),
        );
    }
}

/// Drawing the spans of a triangle a second time changes nothing: every
/// pixel of the second pass meets its own depth, or a closer one, and loses.
pub proof fn lemma_draw_spans_twice(canvas: CanvasView, spans: Seq<Span>)
    requires
        canvas.wf(),
    ensures
        canvas.draw_spans(spans, spans.len()).draw_spans(spans, spans.len()) == canvas.draw_spans(
            spans,
            spans.len(),
        ),
{
    lemma_drawn_spans_are_settled(canvas, spans, spans.len(), spans.len());
    lemma_settled_spans_change_nothing(canvas.draw_spans(spans, spans.len()), spans, spans.len());
}

} // verus!
