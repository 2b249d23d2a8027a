//! The pixel surface: a buffer of packed RGB values with a drawing colour, a
//! background colour and an optional background image.

use vstd::prelude::*;

verus! {

/// An image of RGBA pixels, four bytes each, rows from the top.
#[derive(Clone, Debug)]
pub struct Image {
    pub width: u32,
    pub height: u32,
    pub data: Vec<u8>,
}

impl Image {
    /// The data holds exactly the pixels of the stated size.
    pub open spec fn wf(&self) -> bool {
        self.data@.len() == 4 * (self.width * self.height)
    }

    /// Whether the data holds exactly the pixels of the stated size.
    pub fn is_well_formed(&self) -> (r: bool)
        ensures
            r == self.wf(),
    {
        let w: u128 = self.width as u128;
        let h: u128 = self.height as u128;
        assert(w * h <= 0xffff_ffff * 0xffff_ffff) by (nonlinear_arith)
            requires
                w <= 0xffff_ffff,
                h <= 0xffff_ffff,
        ;
        self.data.len() as u128 == 4 * (w * h)
    }
}

/// A surface of `width` by `height` pixels, rows from the top, each pixel
/// `0xRRGGBB`.
pub struct Framebuffer {
    pub width: usize,
    pub height: usize,
    pub buffer: Vec<u32>,
    pub background_color: u32,
    pub current_color: u32,
    pub background_image: Option<Image>,
    pub wall_texture: Option<Image>,
}

/// The pixel value `0xRRGGBB` of three channels.
pub open spec fn pack_rgb(r: u8, g: u8, b: u8) -> u32 {
    (r * 65536 + g * 256 + b) as u32
}

/// The buffer of a surface `width` pixels wide after the pixels `(x, y)`
/// with `x0 <= x < x1` and `y0 <= y < y1` took `color`.
pub open spec fn rect_filled(
    buffer: Seq<u32>,
    width: int,
    x0: int,
    y0: int,
    x1: int,
    y1: int,
    color: u32,
) -> Seq<u32> {
    Seq::new(
        buffer.len(),
        |i: int|
            if x0 <= i % width < x1 && y0 <= i / width < y1 {
                color
            } else {
                buffer[i]
            },
    )
}

/// The pixel at index `i` of a surface of `width` by `height` pixels has the
/// coordinates `(i % width, i / width)`, and they lie on the surface.
pub proof fn lemma_pixel_coords(i: int, width: int, height: int)
    requires
        0 <= i < width * height,
        width >= 0,
    ensures
        width > 0,
        0 <= i % width < width,
        0 <= i / width < height,
        i == (i / width) * width + i % width,
{
    assert(width > 0) by (nonlinear_arith)
        requires
            0 <= i < width * height,
            width >= 0,
    ;
    vstd::arithmetic::div_mod::lemma_fundamental_div_mod(i, width);
    vstd::arithmetic::div_mod::lemma_mod_bound(i, width);
    let q = i / width;
    assert(width * q == q * width) by (nonlinear_arith);
    assert(0 <= q < height) by (nonlinear_arith)
        requires
            width > 0,
            0 <= i < width * height,
            q * width <= i < q * width + width,
    ;
}

/// The pixel `(x, y)` of a surface `width` pixels wide has the index
/// `y * width + x`, and no other index has these coordinates.
pub proof fn lemma_pixel_index(x: int, y: int, width: int)
    requires
        0 <= x < width,
    ensures
        (y * width + x) % width == x,
        (y * width + x) / width == y,
{
    vstd::arithmetic::div_mod::lemma_fundamental_div_mod_converse(y * width + x, width, y, x);
}

/// What `image::imageops::resize` with the nearest-neighbour filter makes
/// of the RGBA image `data` of `width` by `height` pixels, asked for
/// `nwidth` by `nheight` pixels.
pub uninterp spec fn nearest_resized(
    width: u32,
    height: u32,
    data: Seq<u8>,
    nwidth: u32,
    nheight: u32,
) -> Seq<u8>;

/// The sizes for which resampling allocates no buffer beyond what a vector
/// can hold: the source, the intermediate image of four 4-byte samples per
/// pixel, and the result.
pub open spec fn resize_fits(width: u32, height: u32, nwidth: u32, nheight: u32) -> bool {
    &&& 4 * (width * height) <= isize::MAX
    &&& 16 * (width * nheight) <= isize::MAX
    &&& 4 * (nwidth * nheight) <= isize::MAX
}

/// Calls `image::imageops::resize` with `FilterType::Nearest` on the image
/// and hands back the raw RGBA bytes of the result. Trusted: the result is
/// the named function of the arguments, and holds four bytes for each pixel
/// of the size asked for.
#[verifier::external_body]
fn resize_nearest(image: &Image, nwidth: u32, nheight: u32) -> (out: Vec<u8>)
    requires
        image.wf(),
        resize_fits(image.width, image.height, nwidth, nheight),
    ensures
        out@ == nearest_resized(image.width, image.height, image.data@, nwidth, nheight),
        out@.len() == 4 * (nwidth * nheight),
{
    let source = image::RgbaImage::from_raw(image.width, image.height, image.data.clone()).unwrap();
    image::imageops::resize(&source, nwidth, nheight, image::imageops::FilterType::Nearest).into_raw()
}

/// Whether `resize_fits` holds of the four sides.
fn check_resize_fits(width: u32, height: u32, nwidth: u32, nheight: u32) -> (r: bool)
    ensures
        r == resize_fits(width, height, nwidth, nheight),
{
    let limit: u128 = isize::MAX as u128;
    let w: u128 = width as u128;
    let h: u128 = height as u128;
    let nw: u128 = nwidth as u128;
    let nh: u128 = nheight as u128;
    assert(w * h <= 0xffff_ffff * 0xffff_ffff && w * nh <= 0xffff_ffff * 0xffff_ffff && nw * nh
        <= 0xffff_ffff * 0xffff_ffff) by (nonlinear_arith)
        requires
            w <= 0xffff_ffff,
            h <= 0xffff_ffff,
            nw <= 0xffff_ffff,
            nh <= 0xffff_ffff,
    ;
    4 * (w * h) <= limit && 16 * (w * nh) <= limit && 4 * (nw * nh) <= limit
}

impl Framebuffer {
    /// The buffer holds one value for each pixel, and a background image, if
    /// there is one, has the size of the surface.
    pub open spec fn wf(&self) -> bool {
        &&& self.buffer@.len() == self.width * self.height
        &&& match self.background_image {
            Some(image) => image.wf() && image.width == self.width && image.height == self.height,
            None => true,
        }
    }

    /// The index in the buffer of the pixel `(x, y)`.
    pub open spec fn index_of(&self, x: int, y: int) -> int {
        y * self.width + x
    }

    /// The value that `clear` gives the pixel at `index`: that of the
    /// background image if there is one, else the background colour.
    pub open spec fn background_at(&self, index: int) -> u32 {
        match self.background_image {
            Some(image) => pack_rgb(
                image.data@[4 * index],
                image.data@[4 * index + 1],
                image.data@[4 * index + 2],
            ),
            None => self.background_color,
        }
    }

    /// Everything but the buffer is as in `other`.
    pub open spec fn same_settings(&self, other: &Framebuffer) -> bool {
        &&& self.width == other.width
        &&& self.height == other.height
        &&& self.background_color == other.background_color
        &&& self.current_color == other.current_color
        &&& self.background_image == other.background_image
        &&& self.wall_texture == other.wall_texture
    }

    /// The surface can take `image` as its background: the image is well
    /// formed, the sides of the surface fit in `u32`, and the sizes are ones
    /// that resampling can handle.
    pub open spec fn accepts(&self, image: &Image) -> bool {
        &&& image.wf()
        &&& self.width <= u32::MAX
        &&& self.height <= u32::MAX
        &&& resize_fits(image.width, image.height, self.width as u32, self.height as u32)
    }

    /// Everything but the buffer and the drawing colour is as in `other`.
    pub open spec fn same_surface(&self, other: &Framebuffer) -> bool {
        &&& self.width == other.width
        &&& self.height == other.height
        &&& self.background_color == other.background_color
        &&& self.background_image == other.background_image
        &&& self.wall_texture == other.wall_texture
    }

    /// A black surface of the given size that draws in white, with a black
    /// background and no images.
    pub fn new(width: usize, height: usize) -> (fb: Framebuffer)
        requires
            width * height <= usize::MAX,
        ensures
            fb.wf(),
            fb.width == width,
            fb.height == height,
            fb.buffer@ == Seq::new((width * height) as nat, |i: int| 0u32),
            fb.background_color == 0x000000,
            fb.current_color == 0xFFFFFF,
            fb.background_image is None,
            fb.wall_texture is None,
    {
        let buffer: Vec<u32> = vec![0u32; width * height];
        assert(buffer@ =~= Seq::new((width * height) as nat, |i: int| 0u32));
        Framebuffer {
            width,
            height,
            buffer,
            background_color: 0x000000,
            current_color: 0xFFFFFF,
            background_image: None,
            wall_texture: None,
        }
    }

    /// The value for the pixel at `index` when the surface is cleared.
    fn background_value(&self, index: usize) -> (value: u32)
        requires
            self.wf(),
            index < self.buffer@.len(),
        ensures
            value == self.background_at(index as int),
    {
        match &self.background_image {
            Some(image) => {
                let len: usize = image.data.len();
                assert(len == 4 * (self.width * self.height));
                let r: u8 = image.data[4 * index];
                let g: u8 = image.data[4 * index + 1];
                let b: u8 = image.data[4 * index + 2];
                assert(((r as u32) << 16) | ((g as u32) << 8) | (b as u32) == (r as u32) * 65536 + (
                g as u32) * 256 + (b as u32)) by (bit_vector);
                ((r as u32) << 16) | ((g as u32) << 8) | (b as u32)
            },
            None => self.background_color,
        }
    }

    /// Fills the surface with the background image if there is one, else
    /// with the background colour.
    pub fn clear(&mut self)
        requires
            old(self).wf(),
        ensures
            final(self).wf(),
            final(self).same_settings(old(self)),
            final(self).buffer@ == Seq::new(
                old(self).buffer@.len(),
                |i: int| old(self).background_at(i),
            ),
    {
        let ghost before = *self;
        let n: usize = self.buffer.len();
        let mut i: usize = 0;
        while i < n
            invariant
                i <= n,
                n == self.buffer@.len(),
                n == before.buffer@.len(),
                self.wf(),
                self.same_settings(&before),
                forall|j: int| 0 <= j < i ==> self.buffer@[j] == before.background_at(j),
            decreases n - i,
        {
            let value: u32 = self.background_value(i);
            self.buffer.set(i, value);
            i = i + 1;
        }
        assert(self.buffer@ =~= Seq::new(before.buffer@.len(), |i: int| before.background_at(i)));
    }

    /// Gives the pixel `(x, y)` the drawing colour; outside the surface
    /// nothing happens.
    pub fn point(&mut self, x: usize, y: usize)
        requires
            old(self).wf(),
        ensures
            final(self).wf(),
            final(self).same_settings(old(self)),
            final(self).buffer@ == if x < old(self).width && y < old(self).height {
                old(self).buffer@.update(old(self).index_of(x as int, y as int), old(self).current_color)
            } else {
                old(self).buffer@
            },
    {
        if x < self.width && y < self.height {
            let width: usize = self.width;
            let height: usize = self.height;
            let len: usize = self.buffer.len();
            assert(width * height == len);
            assert(y * width + x < width * height) by (nonlinear_arith)
                requires
                    x < width,
                    y < height,
            ;
            assert(y * width >= 0) by (nonlinear_arith)
                requires
                    y >= 0,
                    width >= 0,
            ;
            let color: u32 = self.current_color;
            self.buffer.set(y * width + x, color);
        }
    }

    /// Makes `image`, resampled to the size of the surface, the background
    /// that `clear` fills with. An image that the surface cannot take leaves
    /// the background as it was.
    pub fn set_background_image(&mut self, image: &Image)
        requires
            old(self).wf(),
        ensures
            final(self).wf(),
            final(self).width == old(self).width,
            final(self).height == old(self).height,
            final(self).buffer == old(self).buffer,
            final(self).background_color == old(self).background_color,
            final(self).current_color == old(self).current_color,
            final(self).wall_texture == old(self).wall_texture,
            old(self).accepts(image) ==> (final(self).background_image matches Some(background)
                && background.width == old(self).width && background.height == old(self).height
                && background.data@ == nearest_resized(
                image.width,
                image.height,
                image.data@,
                old(self).width as u32,
                old(self).height as u32,
            )),
            !old(self).accepts(image) ==> final(self).background_image
                == old(self).background_image,
    {
        if self.width > u32::MAX as usize || self.height > u32::MAX as usize {
            return ;
        }
        let nwidth: u32 = self.width as u32;
        let nheight: u32 = self.height as u32;
        if !image.is_well_formed() || !check_resize_fits(
            image.width,
            image.height,
            nwidth,
            nheight,
        ) {
            return ;
        }
        let data: Vec<u8> = resize_nearest(image, nwidth, nheight);
        self.background_image = Some(Image { width: nwidth, height: nheight, data });
    }

    /// Keeps `image` as the texture for walls.
    pub fn set_wall_texture(&mut self, image: Image)
        ensures
            final(self).wall_texture == Some(image),
            final(self).width == old(self).width,
            final(self).height == old(self).height,
            final(self).buffer == old(self).buffer,
            final(self).background_color == old(self).background_color,
            final(self).current_color == old(self).current_color,
            final(self).background_image == old(self).background_image,
    {
        self.wall_texture = Some(image);
    }

    /// Gives the drawing colour to the pixels `(x, y)` with `x0 <= x < x1`
    /// and `y0 <= y < y1` that lie on the surface.
    pub fn fill_rect(&mut self, x0: usize, y0: usize, x1: usize, y1: usize)
        requires
            old(self).wf(),
        ensures
            final(self).wf(),
            final(self).same_settings(old(self)),
            final(self).buffer@ == rect_filled(
                old(self).buffer@,
                old(self).width as int,
                x0 as int,
                y0 as int,
                x1 as int,
                y1 as int,
                old(self).current_color,
            ),
    {
        let ghost before = *self;
        let ghost w = self.width as int;
        let ghost h = self.height as int;
        let ghost color = self.current_color;
        let x_end: usize = if x1 < self.width {
            x1
        } else {
            self.width
        };
        let y_end: usize = if y1 < self.height {
            y1
        } else {
            self.height
        };
        let mut y: usize = y0;
        assert(self.buffer@ =~= rect_filled(before.buffer@, w, x0 as int, y0 as int, x1 as int, y0 as int, color));
        while y < y_end
            invariant
                y0 <= y,
                y <= y_end || y == y0,
                x_end <= self.width,
                x_end <= x1,
                x_end == x1 || x_end == self.width,
                y_end <= self.height,
                w == self.width,
                h == self.height,
                color == self.current_color,
                before.wf(),
                self.wf(),
                self.same_settings(&before),
                self.buffer@ == rect_filled(
                    before.buffer@,
                    w,
                    x0 as int,
                    y0 as int,
                    x1 as int,
                    y as int,
                    color,
                ),
            decreases y_end - y,
        {
            let ghost row_start = *self;
            let mut x: usize = x0;
            while x < x_end
                invariant
                    x0 <= x,
                    x <= x_end || x == x0,
                    y0 <= y < y_end,
                    x_end <= self.width,
                    y_end <= self.height,
                    w == self.width,
                    h == self.height,
                    color == self.current_color,
                    before.wf(),
                    self.wf(),
                    self.same_settings(&before),
                    self.buffer@.len() == before.buffer@.len(),
                    forall|i: int|
                        0 <= i < self.buffer@.len() ==> #[trigger] self.buffer@[i] == if (x0 <= i
                            % w < x1 && y0 <= i / w < y) || (i / w == y && x0 <= i % w < x) {
                            color
                        } else {
                            before.buffer@[i]
                        },
                decreases x_end - x,
            {
                let ghost prev = self.buffer@;
                self.point(x, y);
                proof {
                    lemma_pixel_index(x as int, y as int, w);
                    assert forall|i: int| 0 <= i < self.buffer@.len() implies #[trigger] self.buffer@[i]
                        == if (x0 <= i % w < x1 && y0 <= i / w < y) || (i / w == y && x0 <= i % w < x
                        + 1) {
                        color
                    } else {
                        before.buffer@[i]
                    } by {
                        lemma_pixel_coords(i, w, h);
                        let k = y * w + x;
                        assert(0 <= k < w * h) by (nonlinear_arith)
                            requires
                                k == y * w + x,
                                0 <= x < w,
                                0 <= y < h,
                        ;
                    }
                }
                x = x + 1;
            }
            proof {
                assert forall|i: int| 0 <= i < self.buffer@.len() implies #[trigger] self.buffer@[i]
                    == rect_filled(
                    before.buffer@,
                    w,
                    x0 as int,
                    y0 as int,
                    x1 as int,
                    y + 1,
                    color,
                )[i] by {
                    lemma_pixel_coords(i, w, h);
                }
                assert(self.buffer@ =~= rect_filled(
                    before.buffer@,
                    w,
                    x0 as int,
                    y0 as int,
                    x1 as int,
                    y + 1,
                    color,
                ));
            }
            y = y + 1;
        }
        proof {
            assert forall|i: int| 0 <= i < self.buffer@.len() implies #[trigger] self.buffer@[i]
                == rect_filled(
                before.buffer@,
                w,
                x0 as int,
                y0 as int,
                x1 as int,
                y1 as int,
                color,
            )[i] by {
                lemma_pixel_coords(i, w, h);
            }
            assert(self.buffer@ =~= rect_filled(
                before.buffer@,
                w,
                x0 as int,
                y0 as int,
                x1 as int,
                y1 as int,
                color,
            ));
        }
    }

    /// Sets the colour that `clear` fills with when there is no background
    /// image.
    pub fn set_background_color(&mut self, color: u32)
        ensures
            final(self).background_color == color,
            final(self).width == old(self).width,
            final(self).height == old(self).height,
            final(self).buffer == old(self).buffer,
            final(self).current_color == old(self).current_color,
            final(self).background_image == old(self).background_image,
            final(self).wall_texture == old(self).wall_texture,
    {
        self.background_color = color;
    }

    /// Sets the colour that `point` draws with.
    pub fn set_current_color(&mut self, color: u32)
        ensures
            final(self).current_color == color,
            final(self).width == old(self).width,
            final(self).height == old(self).height,
            final(self).buffer == old(self).buffer,
            final(self).background_color == old(self).background_color,
            final(self).background_image == old(self).background_image,
            final(self).wall_texture == old(self).wall_texture,
    {
        self.current_color = color;
    }
}

} // verus!
