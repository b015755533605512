//! Bitmaps of colours, and how they are read from PNG data.

use vstd::prelude::*;

verus! {

/// What a PNG file holds once decoded: width, height, and the pixels row by
/// row with four bytes each, red, green, blue and alpha; `None` for data
/// that is no PNG file.
pub uninterp spec fn decoded_png(data: Seq<u8>) -> Option<(u32, u32, Seq<u8>)>;

/// Calls `image::load` on PNG data held in memory and takes the image as
/// eight-bit RGBA.  What comes out depends on the data alone and is given
/// the name `decoded_png`; nothing more is claimed of it.
#[verifier::external_body]
pub(crate) fn decode_png(data: &[u8]) -> (r: Option<(u32, u32, Vec<u8>)>)
    ensures
        match r {
            Some((w, h, raw)) => decoded_png(data@) == Some((w, h, raw@)),
            None => decoded_png(data@) is None,
        },
{
    match image::load(std::io::Cursor::new(data), image::ImageFormat::Png) {
        Ok(img) => {
            let rgba = img.into_rgba8();
            Some((rgba.width(), rgba.height(), rgba.into_raw()))
        },
        Err(_) => None,
    }
}

/// A bitmap as contracts see it.
pub struct BitmapView {
    pub width: int,
    pub height: int,
    /// The colours row by row, each as `0xRRGGBBAA`.
    pub pixels: Seq<u32>,
}

impl BitmapView {
    /// The colour of the pixel in column `x` of row `y`.
    pub open spec fn pixel(self, x: int, y: int) -> u32 {
        self.pixels[y * self.width + x]
    }
}

/// The colour `0xRRGGBBAA` of four bytes.
pub open spec fn rgba(r: u8, g: u8, b: u8, a: u8) -> u32 {
    (r as u32 * 0x100_0000 + g as u32 * 0x1_0000 + b as u32 * 0x100 + a as u32) as u32
}

/// The bitmap of `width` by `height` pixels whose bytes are `raw`, if
/// `raw` has four bytes for each pixel.
pub open spec fn bitmap_of(width: u32, height: u32, raw: Seq<u8>) -> Option<BitmapView> {
    if raw.len() == width * height * 4 {
        Some(
            BitmapView {
                width: width as int,
                height: height as int,
                pixels: Seq::new(
                    (width * height) as nat,
                    |i: int| rgba(raw[4 * i], raw[4 * i + 1], raw[4 * i + 2], raw[4 * i + 3]),
                ),
            },
        )
    } else {
        None
    }
}

/// The bitmap that PNG data holds, if it holds one.
pub open spec fn png_bitmap(data: Seq<u8>) -> Option<BitmapView> {
    match decoded_png(data) {
        Some((w, h, raw)) => bitmap_of(w, h, raw),
        None => None,
    }
}

/// Number of pixels of a bitmap of `width` by `height`.
fn area(width: u32, height: u32) -> (n: u64)
    ensures
        n == width * height,
{
    assert(0 <= width * height <= 0xffff_ffff * 0xffff_ffff) by (nonlinear_arith)
        requires
            0 <= width <= 0xffff_ffff,
            0 <= height <= 0xffff_ffff,
    ;
    width as u64 * height as u64
}

/// A rectangle of colours.
#[derive(Debug)]
pub struct Bitmap {
    width: u32,
    height: u32,
    pixels: Vec<u32>,
}

impl View for Bitmap {
    type V = BitmapView;

    closed spec fn view(&self) -> BitmapView {
        BitmapView { width: self.width as int, height: self.height as int, pixels: self.pixels@ }
    }
}

impl Bitmap {
    #[verifier::type_invariant]
    spec fn wf(self) -> bool {
        self.pixels@.len() == self.width * self.height
    }

    /// The bitmap of `width` by `height` pixels with the colours `pixels`,
    /// row by row; `None` unless there is one colour for each pixel.
    pub fn new(width: u32, height: u32, pixels: Vec<u32>) -> (r: Option<Bitmap>)
        ensures
            match r {
                Some(b) => b@ == (BitmapView {
                    width: width as int,
                    height: height as int,
                    pixels: pixels@,
                }) && pixels@.len() == width * height,
                None => pixels@.len() != width * height,
            },
    {
        let n: u64 = area(width, height);
        if pixels.len() as u64 == n {
            Some(Bitmap { width, height, pixels })
        } else {
            None
        }
    }

    /// The bitmap of `width` by `height` pixels from bytes, four for each
    /// pixel: red, green, blue, alpha.
    pub fn from_rgba(width: u32, height: u32, raw: &Vec<u8>) -> (r: Option<Bitmap>)
        ensures
            match r {
                Some(b) => bitmap_of(width, height, raw@) == Some(b@),
                None => bitmap_of(width, height, raw@) is None,
            },
    {
        let n: u64 = area(width, height);
        if raw.len() as u64 / 4 != n || raw.len() % 4 != 0 {
            return None;
        }
        let count: usize = raw.len() / 4;
        let mut pixels: Vec<u32> = Vec::new();
        let mut i: usize = 0;
        while i < count
            invariant
                i <= count,
                count * 4 == raw@.len(),
                pixels@.len() == i,
                forall|k: int|
                    0 <= k < i ==> #[trigger] pixels@[k] == rgba(
                        raw@[4 * k],
                        raw@[4 * k + 1],
                        raw@[4 * k + 2],
                        raw@[4 * k + 3],
                    ),
            decreases count - i,
        {
            assert(4 * i + 3 < raw.len());
            let r = raw[4 * i] as u32;
            let g = raw[4 * i + 1] as u32;
            let b = raw[4 * i + 2] as u32;
            let a = raw[4 * i + 3] as u32;
            pixels.push(r * 0x100_0000 + g * 0x1_0000 + b * 0x100 + a);
            i += 1;
        }
        let bitmap = Bitmap { width, height, pixels };
        assert(bitmap@.pixels =~= bitmap_of(width, height, raw@)->0.pixels);
        Some(bitmap)
    }

    /// The bitmap that PNG data holds; `None` for data that is no PNG file.
    pub fn from_png(data: &[u8]) -> (r: Option<Bitmap>)
        ensures
            match r {
                Some(b) => png_bitmap(data@) == Some(b@),
                None => png_bitmap(data@) is None,
            },
    {
        match decode_png(data) {
            Some((w, h, raw)) => Bitmap::from_rgba(w, h, &raw),
            None => None,
        }
    }

    /// Number of columns.  A bitmap has a colour for each of its pixels.
    pub fn width(&self) -> (w: u32)
        ensures
            w == self@.width,
            self@.pixels.len() == self@.width * self@.height,
    {
        proof {
            use_type_invariant(self);
        }
        self.width
    }

    /// Number of rows.
    pub fn height(&self) -> (h: u32)
        ensures
            h == self@.height,
            self@.pixels.len() == self@.width * self@.height,
    {
        proof {
            use_type_invariant(self);
        }
        self.height
    }

    /// The colour of the pixel in column `x` of row `y`.
    pub fn pixel(&self, x: u32, y: u32) -> (c: u32)
        requires
            x < self@.width,
            y < self@.height,
        ensures
            c == self@.pixel(x as int, y as int),
    {
        proof {
            use_type_invariant(self);
            assert(0 <= y * self.width + x < self.width * self.height) by (nonlinear_arith)
                requires
                    0 <= x < self.width,
                    0 <= y < self.height,
            ;
            assert(0 <= y * self.width <= y * self.width + x);
        }
        let n = self.pixels.len();
        assert(y * self.width + x < n);
        let i: usize = y as usize * self.width as usize + x as usize;
        self.pixels[i]
    }
}

} // verus!
