use vstd::prelude::*;

use crate::error::KmeansError;

verus! {

/// A pixel with three 8-bit channels.
#[derive(Clone, Copy, PartialEq, Eq, Structural, Debug)]
pub struct Rgb {
    pub r: u8,
    pub g: u8,
    pub b: u8,
}

/// Mathematical content of an [`Image`]: its size and its pixels, row after row.
pub struct ImageModel {
    pub width: nat,
    pub height: nat,
    pub pixels: Seq<Rgb>,
}

impl ImageModel {
    pub open spec fn wf(self) -> bool {
        &&& self.pixels.len() == self.width * self.height
        &&& self.width <= u32::MAX
        &&& self.height <= u32::MAX
    }

    pub open spec fn in_bounds(self, x: int, y: int) -> bool {
        0 <= x < self.width && 0 <= y < self.height
    }

    /// Position of pixel `(x, y)` in `pixels`.
    pub open spec fn offset(self, x: int, y: int) -> int {
        y * self.width + x
    }

    pub open spec fn pixel(self, x: int, y: int) -> Rgb {
        self.pixels[self.offset(x, y)]
    }
}

/// An image of `width * height` pixels stored row after row.
pub struct Image {
    width: u32,
    height: u32,
    pixels: Vec<Rgb>,
}

impl View for Image {
    type V = ImageModel;

    closed spec fn view(&self) -> ImageModel {
        ImageModel { width: self.width as nat, height: self.height as nat, pixels: self.pixels@ }
    }
}

pub proof fn lemma_offset_in_bounds(w: int, h: int, x: int, y: int)
    requires
        0 <= x < w,
        0 <= y < h,
    ensures
        0 <= y * w + x < w * h,
{
    assert(0 <= y * w + x < w * h) by (nonlinear_arith)
        requires
            0 <= x < w,
            0 <= y < h,
    ;
}

impl Image {
    #[verifier::type_invariant]
    spec fn inv(self) -> bool {
        self.pixels@.len() == self.width as int * self.height as int
    }

    /// An image of the given size from its pixels, row after row.
    pub fn from_pixels(width: u32, height: u32, pixels: Vec<Rgb>) -> (r: Result<Image, KmeansError>)
        ensures
            pixels@.len() == width as int * height as int <==> r is Ok,
            r is Ok ==> r->Ok_0@ == (ImageModel { width: width as nat, height: height as nat, pixels: pixels@ }),
            r is Err ==> r->Err_0 == KmeansError::DimensionMismatch,
    {
        assert(width as int * height as int <= u32::MAX as int * u32::MAX as int) by (nonlinear_arith)
            requires
                width <= u32::MAX,
                height <= u32::MAX,
        ;
        let expected: u64 = (width as u64) * (height as u64);
        if pixels.len() as u64 != expected {
            return Err(KmeansError::DimensionMismatch);
        }
        Ok(Image { width, height, pixels })
    }

    /// An independent copy of the image.
    pub fn clone(&self) -> (r: Image)
        ensures
            r@ == self@,
    {
        proof {
            use_type_invariant(self);
        }
        let mut pixels: Vec<Rgb> = Vec::new();
        let mut k: usize = 0;
        while k < self.pixels.len()
            invariant
                k <= self.pixels@.len(),
                pixels@ == self.pixels@.take(k as int),
            decreases self.pixels@.len() - k,
        {
            pixels.push(self.pixels[k]);
            k = k + 1;
            assert(pixels@ =~= self.pixels@.take(k as int));
        }
        assert(pixels@ =~= self.pixels@);
        Image { width: self.width, height: self.height, pixels }
    }

    pub fn width(&self) -> (r: u32)
        ensures
            r == self@.width,
            self@.wf(),
    {
        proof {
            use_type_invariant(self);
        }
        self.width
    }

    pub fn height(&self) -> (r: u32)
        ensures
            r == self@.height,
            self@.wf(),
    {
        proof {
            use_type_invariant(self);
        }
        self.height
    }

    /// Number of pixels.
    pub fn pixel_count(&self) -> (r: usize)
        ensures
            r == self@.pixels.len(),
            self@.wf(),
    {
        proof {
            use_type_invariant(self);
        }
        self.pixels.len()
    }

    /// Pixel at column `x` of row `y`.
    pub fn get_pixel(&self, x: u32, y: u32) -> (r: Rgb)
        requires
            self@.in_bounds(x as int, y as int),
        ensures
            r == self@.pixel(x as int, y as int),
    {
        proof {
            use_type_invariant(self);
            lemma_offset_in_bounds(self.width as int, self.height as int, x as int, y as int);
        }
        let _len = self.pixels.len();
        let k: usize = (y as usize) * (self.width as usize) + (x as usize);
        self.pixels[k]
    }

    /// Replaces the pixel at column `x` of row `y`.
    pub fn put_pixel(&mut self, x: u32, y: u32, pixel: Rgb)
        requires
            old(self)@.in_bounds(x as int, y as int),
        ensures
            final(self)@.width == old(self)@.width,
            final(self)@.height == old(self)@.height,
            final(self)@.pixels == old(self)@.pixels.update(old(self)@.offset(x as int, y as int), pixel),
    {
        proof {
            use_type_invariant(&*self);
            lemma_offset_in_bounds(self.width as int, self.height as int, x as int, y as int);
        }
        let _len = self.pixels.len();
        let k: usize = (y as usize) * (self.width as usize) + (x as usize);
        let mut taken = Image { width: 0, height: 0, pixels: Vec::new() };
        core::mem::swap(self, &mut taken);
        let Image { width, height, mut pixels } = taken;
        pixels.set(k, pixel);
        *self = Image { width, height, pixels };
    }
}

} // verus!
