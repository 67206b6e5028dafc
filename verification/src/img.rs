//! In-memory images for the filter pipeline: single-channel grayscale and
//! three-channel RGB, both row-major with no padding.

use vstd::prelude::*;

verus! {

/// Index of a grid cell in a row-major pixel sequence.
pub proof fn lemma_grid_index(x: int, y: int, w: int, h: int)
    requires
        0 <= x < w,
        0 <= y < h,
    ensures
        0 <= y * w + x < w * h,
    decreases h,
{
    assert(0 <= y * w + x < w * h) by (nonlinear_arith)
        requires
            0 <= x < w,
            0 <= y < h,
    ;
}

/// A grayscale image: one byte per pixel, rows stored top to bottom.
#[derive(Debug, Clone)]
pub struct GrayImage {
    pub width: u32,
    pub height: u32,
    pub data: Vec<u8>,
}

/// An RGB image: three bytes per pixel in channel order red, green, blue.
#[derive(Debug, Clone)]
pub struct RgbImage {
    pub width: u32,
    pub height: u32,
    pub data: Vec<u8>,
}

/// A decoded image of either kind.
#[derive(Debug, Clone)]
pub enum Image {
    Gray(GrayImage),
    Rgb(RgbImage),
}

impl GrayImage {
    /// The byte count agrees with the dimensions.
    pub open spec fn valid(self) -> bool {
        self.data@.len() == self.width * self.height
    }

    /// The pixel at `(x, y)`.
    pub open spec fn px(self, x: int, y: int) -> u8 {
        self.data@[y * self.width + x]
    }

    /// Builds an image of the given dimensions with every pixel set to `v`.
    pub fn new_filled(width: u32, height: u32, v: u8) -> (r: GrayImage)
        requires
            width * height <= usize::MAX,
        ensures
            r.valid(),
            r.width == width,
            r.height == height,
            forall|i: int| 0 <= i < r.data@.len() ==> r.data@[i] == v,
    {
        let n: usize = (width as usize) * (height as usize);
        let mut data: Vec<u8> = Vec::new();
        while data.len() < n
            invariant
                data@.len() <= n,
                forall|i: int| 0 <= i < data@.len() ==> data@[i] == v,
            decreases n - data@.len(),
        {
            data.push(v);
        }
        GrayImage { width, height, data }
    }

    /// Reads the pixel at `(x, y)`.
    pub fn get_px(&self, x: u32, y: u32) -> (r: u8)
        requires
            self.valid(),
            x < self.width,
            y < self.height,
        ensures
            r == self.px(x as int, y as int),
    {
        let w = self.width as usize;
        let n = self.data.len();
        proof {
            lemma_grid_index(x as int, y as int, self.width as int, self.height as int);
        }
        let idx: usize = (y as usize) * w + (x as usize);
        self.data[idx]
    }

    /// Writes the pixel at `(x, y)`; nothing else changes.
    pub fn set_px(&mut self, x: u32, y: u32, v: u8)
        requires
            old(self).valid(),
            x < old(self).width,
            y < old(self).height,
        ensures
            final(self).valid(),
            final(self).width == old(self).width,
            final(self).height == old(self).height,
            final(self).data@ == old(self).data@.update(y * old(self).width + x, v),
    {
        let w = self.width as usize;
        let n = self.data.len();
        proof {
            lemma_grid_index(x as int, y as int, self.width as int, self.height as int);
        }
        let idx: usize = (y as usize) * w + (x as usize);
        self.data.set(idx, v);
    }
}

impl RgbImage {
    /// The byte count agrees with the dimensions: three bytes per pixel.
    pub open spec fn valid(self) -> bool {
        self.data@.len() == 3 * (self.width * self.height)
    }

    /// Channel `c` of the pixel at `(x, y)`: 0 red, 1 green, 2 blue.
    pub open spec fn ch(self, x: int, y: int, c: int) -> u8 {
        self.data@[3 * (y * self.width + x) + c]
    }

    /// The three channels of the pixel at `(x, y)`.
    pub open spec fn px(self, x: int, y: int) -> Seq<u8> {
        seq![self.ch(x, y, 0), self.ch(x, y, 1), self.ch(x, y, 2)]
    }

    /// Reads the three channels of the pixel at `(x, y)`.
    pub fn get_px(&self, x: u32, y: u32) -> (r: [u8; 3])
        requires
            self.valid(),
            x < self.width,
            y < self.height,
        ensures
            r@ =~= self.px(x as int, y as int),
    {
        let w = self.width as usize;
        let n = self.data.len();
        proof {
            lemma_grid_index(x as int, y as int, self.width as int, self.height as int);
        }
        let idx: usize = 3 * ((y as usize) * w + (x as usize));
        [self.data[idx], self.data[idx + 1], self.data[idx + 2]]
    }
}

impl Image {
    /// The byte count agrees with the dimensions, in either kind.
    pub open spec fn valid(self) -> bool {
        match self {
            Image::Gray(g) => g.valid(),
            Image::Rgb(r) => r.valid(),
        }
    }

    /// Width of the image, in either kind.
    pub open spec fn spec_width(self) -> u32 {
        match self {
            Image::Gray(g) => g.width,
            Image::Rgb(r) => r.width,
        }
    }

    /// Height of the image, in either kind.
    pub open spec fn spec_height(self) -> u32 {
        match self {
            Image::Gray(g) => g.height,
            Image::Rgb(r) => r.height,
        }
    }

    /// Bytes per pixel: 1 for grayscale, 3 for RGB.
    pub open spec fn spec_channels(self) -> u32 {
        match self {
            Image::Gray(_) => 1,
            Image::Rgb(_) => 3,
        }
    }

    /// The raw bytes, in either kind.
    pub open spec fn spec_data(self) -> Seq<u8> {
        match self {
            Image::Gray(g) => g.data@,
            Image::Rgb(r) => r.data@,
        }
    }
}

/// Copies a byte vector.
pub fn copy_bytes(v: &Vec<u8>) -> (r: Vec<u8>)
    ensures
        r@ == v@,
{
    let n = v.len();
    let mut out: Vec<u8> = Vec::new();
    let mut i: usize = 0;
    while i < n
        invariant
            0 <= i <= n,
            n == v@.len(),
            out@ =~= v@.take(i as int),
        decreases n - i,
    {
        out.push(v[i]);
        i = i + 1;
    }
    proof {
        assert(v@.take(n as int) =~= v@);
    }
    out
}

/// Standard luma of an RGB pixel: `(2126 r + 7152 g + 722 b) / 10000`,
/// truncating. Equal channels map to their common value.
pub open spec fn luma(r: u8, g: u8, b: u8) -> u8 {
    ((2126 * r + 7152 * g + 722 * b) / 10000) as u8
}

/// Computes the luma of one pixel.
pub fn luma_px(r: u8, g: u8, b: u8) -> (l: u8)
    ensures
        l == luma(r, g, b),
{
    let sum: u32 = 2126 * (r as u32) + 7152 * (g as u32) + 722 * (b as u32);
    (sum / 10000) as u8
}

/// The grayscale counterpart of an RGB pixel sequence: the luma of each pixel.
pub open spec fn gray_of_rgb(data: Seq<u8>, n: int) -> Seq<u8> {
    Seq::new(n as nat, |i: int| luma(data[3 * i], data[3 * i + 1], data[3 * i + 2]))
}

/// Converts an image to grayscale: a grayscale image is copied unchanged, an
/// RGB image is reduced pixel by pixel to its luma.
pub fn to_gray(img: &Image) -> (r: GrayImage)
    requires
        img.valid(),
    ensures
        r.valid(),
        r.width == img.spec_width(),
        r.height == img.spec_height(),
        match *img {
            Image::Gray(g) => r.data@ == g.data@,
            Image::Rgb(rgb) => r.data@ == gray_of_rgb(rgb.data@, rgb.width * rgb.height),
        },
{
    match img {
        Image::Gray(g) => GrayImage { width: g.width, height: g.height, data: copy_bytes(&g.data) },
        Image::Rgb(rgb) => {
            let ghost n = (rgb.width * rgb.height) as int;
            let len: usize = rgb.data.len();
            let count: usize = len / 3;
            proof {
                assert(len / 3 == n) by (nonlinear_arith)
                    requires
                        len == 3 * n,
                        n >= 0,
                ;
            }
            let mut data: Vec<u8> = Vec::new();
            let mut i: usize = 0;
            while i < count
                invariant
                    0 <= i <= count,
                    count == n,
                    len == rgb.data@.len(),
                    rgb.data@.len() == 3 * n,
                    data@.len() == i,
                    forall|j: int|
                        0 <= j < i ==> data@[j] == luma(
                            rgb.data@[3 * j],
                            rgb.data@[3 * j + 1],
                            rgb.data@[3 * j + 2],
                        ),
                decreases count - i,
            {
                let l = luma_px(rgb.data[3 * i], rgb.data[3 * i + 1], rgb.data[3 * i + 2]);
                data.push(l);
                i = i + 1;
            }
            proof {
                assert(data@ =~= gray_of_rgb(rgb.data@, n));
            }
            GrayImage { width: rgb.width, height: rgb.height, data }
        },
    }
}

/// The RGB counterpart of a grayscale pixel sequence: each byte repeated into
/// all three channels.
pub open spec fn rgb_of_gray(data: Seq<u8>) -> Seq<u8> {
    Seq::new(3 * data.len(), |i: int| data[i / 3])
}

/// Converts an image to RGB: an RGB image is copied unchanged, a grayscale
/// image has its byte repeated into all three channels.
pub fn to_rgb(img: &Image) -> (r: RgbImage)
    requires
        img.valid(),
    ensures
        r.valid(),
        r.width == img.spec_width(),
        r.height == img.spec_height(),
        match *img {
            Image::Rgb(rgb) => r.data@ == rgb.data@,
            Image::Gray(g) => r.data@ == rgb_of_gray(g.data@),
        },
{
    match img {
        Image::Rgb(rgb) => RgbImage {
            width: rgb.width,
            height: rgb.height,
            data: copy_bytes(&rgb.data),
        },
        Image::Gray(g) => {
            let count: usize = g.data.len();
            let mut data: Vec<u8> = Vec::new();
            let mut i: usize = 0;
            while i < count
                invariant
                    0 <= i <= count,
                    count == g.data@.len(),
                    data@.len() == 3 * i,
                    forall|j: int| 0 <= j < 3 * i ==> data@[j] == g.data@[j / 3],
                decreases count - i,
            {
                let v = g.data[i];
                data.push(v);
                data.push(v);
                data.push(v);
                proof {
                    assert forall|j: int| 0 <= j < 3 * (i + 1) implies data@[j] == g.data@[j / 3]
                    by {
                        if j >= 3 * i {
                            assert(j / 3 == i as int);
                        }
                    }
                }
                i = i + 1;
            }
            proof {
                assert(data@ =~= rgb_of_gray(g.data@));
            }
            RgbImage { width: g.width, height: g.height, data }
        },
    }
}


/// The grayscale pixels of an image: its own bytes if grayscale, else the
/// luma of each RGB pixel.
pub open spec fn image_gray(img: Image) -> Seq<u8> {
    match img {
        Image::Gray(g) => g.data@,
        Image::Rgb(c) => gray_of_rgb(c.data@, c.width * c.height),
    }
}

/// The RGB pixels of an image: its own bytes if RGB, else each gray byte
/// repeated into three channels.
pub open spec fn image_rgb(img: Image) -> Seq<u8> {
    match img {
        Image::Rgb(c) => c.data@,
        Image::Gray(g) => rgb_of_gray(g.data@),
    }
}

} // verus!
