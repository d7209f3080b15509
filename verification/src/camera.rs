//! The render loop: every pixel of the image is sampled a fixed number of
//! times, the samples are summed, the sum is resolved to three bytes, and the
//! bytes are laid out row by row.

use vstd::prelude::*;
use crate::path::{path_color, ray_color, Bounce};
use crate::relation::{outputs1, outputs2, total1, total2};

verus! {

/// One pixel of the finished image: a byte for each of red, green and blue.
#[derive(Clone, Copy, Debug, PartialEq, Eq, Structural)]
pub struct Pixel {
    pub r: u8,
    pub g: u8,
    pub b: u8,
}

/// The pixel in column `i` of row `j` of an image of `width` columns that is
/// stored row by row from the top, three bytes to the pixel.
pub open spec fn pixel_at(image: Seq<u8>, width: u32, i: u32, j: u32) -> Pixel {
    let at = 3 * (j * width + i);
    Pixel { r: image[at], g: image[at + 1], b: image[at + 2] }
}

/// The arithmetic that a render calls back for, as relations.
#[verifier::reject_recursive_types(R)]
#[verifier::reject_recursive_types(C)]
pub struct Shading<R, C> {
    /// The light of a path that brings none, and the sum of no sample.
    pub black: C,
    /// Relates a column and a row to the primary rays through that pixel.
    pub primary: spec_fn(u32, u32, R) -> bool,
    /// Relates a ray to what the scene may do with it.
    pub bounce: spec_fn(R, Bounce<R, C>) -> bool,
    /// Relates an attenuation and a light to their product.
    pub tint: spec_fn(C, C, C) -> bool,
    /// Relates a sum and a light to the sum with that light added.
    pub gather: spec_fn(C, C, C) -> bool,
}

/// The relations of the functions that a render is handed.
pub open spec fn shading<R, C, P, B, T, A>(
    black: C,
    primary: P,
    bounce: B,
    tint: T,
    gather: A,
) -> Shading<R, C> where
    P: Fn(u32, u32) -> R,
    B: Fn(R) -> Bounce<R, C>,
    T: Fn(C, C) -> C,
    A: Fn(C, C) -> C,
{
    Shading {
        black,
        primary: outputs2(primary),
        bounce: outputs1(bounce),
        tint: outputs2(tint),
        gather: outputs2(gather),
    }
}

/// The counts that drive a render.
#[derive(Clone, Copy, Debug)]
pub struct Camera {
    /// Columns of the image.
    pub image_width: u32,
    /// Rows of the image.
    pub image_height: u32,
    /// Light paths that are averaged into one pixel.
    pub samples_per_pixel: u32,
    /// Bounces that one light path may take.
    pub max_depth: u32,
}

impl Camera {
    /// Whether the camera can render: the image has a pixel, each pixel gets a
    /// sample, and the bytes of the image fit in one allocation.
    pub open spec fn valid(&self) -> bool {
        &&& self.image_width >= 1
        &&& self.image_height >= 1
        &&& self.samples_per_pixel >= 1
        &&& 3 * self.image_width * self.image_height <= isize::MAX
    }

    /// Whether `sum` may be the sum of `samples` samples through the pixel in
    /// column `i` of row `j`.
    ///
    /// The sum of no sample is black. Each further sample is the light that a
    /// path of at most `max_depth` bounces carries back along a primary ray
    /// through the pixel, gathered to the sum so far.
    pub open spec fn sample_sum<R, C>(
        &self,
        shade: Shading<R, C>,
        i: u32,
        j: u32,
        samples: nat,
        sum: C,
    ) -> bool
        decreases samples,
    {
        if samples == 0 {
            sum == shade.black
        } else {
            exists|before: C, ray: R, light: C|
                {
                    &&& self.sample_sum(shade, i, j, (samples - 1) as nat, before)
                    &&& #[trigger] (shade.primary)(i, j, ray)
                    &&& path_color(
                        shade.bounce,
                        shade.tint,
                        shade.black,
                        ray,
                        self.max_depth as nat,
                        light,
                    )
                    &&& #[trigger] (shade.gather)(before, light, sum)
                }
        }
    }

    /// Whether `pixel` may be what the pixel in column `i` of row `j` renders
    /// to: what `resolve` makes of a sum of `samples_per_pixel` samples.
    pub open spec fn pixel_value<R, C>(
        &self,
        shade: Shading<R, C>,
        resolve: spec_fn(C, Pixel) -> bool,
        i: u32,
        j: u32,
        pixel: Pixel,
    ) -> bool {
        exists|sum: C|
            {
                &&& self.sample_sum(shade, i, j, self.samples_per_pixel as nat, sum)
                &&& #[trigger] resolve(sum, pixel)
            }
    }

    /// Tells whether the camera can render.
    pub fn is_valid(&self) -> (ok: bool)
        ensures
            ok == self.valid(),
    {
        if self.image_width < 1 || self.image_height < 1 || self.samples_per_pixel < 1 {
            return false;
        }
        assert(self.image_width * self.image_height <= 0xffff_ffff * 0xffff_ffff)
            by (nonlinear_arith)
            requires
                self.image_width <= 0xffff_ffff,
                self.image_height <= 0xffff_ffff,
        ;
        let pixels: u64 = (self.image_width as u64) * (self.image_height as u64);
        assert(3 * self.image_width * self.image_height == 3 * pixels) by (nonlinear_arith)
            requires
                pixels == self.image_width * self.image_height,
        ;
        pixels <= (isize::MAX as u64) / 3
    }

    /// The sum of `samples_per_pixel` samples through the pixel in column `i`
    /// of row `j`.
    ///
    /// `primary` makes a ray through the pixel, `bounce` and `tint` carry the
    /// light back along it as in [`ray_color`], and `gather` adds it to the sum,
    /// which starts at `black`.
    pub fn sample_pixel<R, C: Copy, P, B, T, A>(
        &self,
        i: u32,
        j: u32,
        black: C,
        primary: &P,
        bounce: &B,
        tint: &T,
        gather: &A,
    ) -> (sum: C) where
        P: Fn(u32, u32) -> R,
        B: Fn(R) -> Bounce<R, C>,
        T: Fn(C, C) -> C,
        A: Fn(C, C) -> C,

        requires
            call_requires(*primary, (i, j)),
            total1(*bounce),
            total2(*tint),
            total2(*gather),
        ensures
            self.sample_sum(
                shading(black, *primary, *bounce, *tint, *gather),
                i,
                j,
                self.samples_per_pixel as nat,
                sum,
            ),
    {
        let mut sum = black;
        let mut taken: u32 = 0;
        while taken < self.samples_per_pixel
            invariant
                taken <= self.samples_per_pixel,
                call_requires(*primary, (i, j)),
                total1(*bounce),
                total2(*tint),
                total2(*gather),
                self.sample_sum(
                    shading(black, *primary, *bounce, *tint, *gather),
                    i,
                    j,
                    taken as nat,
                    sum,
                ),
            decreases self.samples_per_pixel - taken,
        {
            let ray = primary(i, j);
            let light = ray_color(ray, self.max_depth, black, bounce, tint);
            let next = gather(sum, light);
            assert(outputs2(*primary)(i, j, ray) && outputs2(*gather)(sum, light, next));
            sum = next;
            taken += 1;
        }
        sum
    }

    /// Renders the image: `3 * image_width * image_height` bytes, row by row
    /// from the top, each pixel as its red, green and blue byte.
    ///
    /// Every pixel is what `resolve` makes of the sum that
    /// [`Camera::sample_pixel`] gathers for it.
    pub fn render<R, C: Copy, P, B, T, A, Q>(
        &self,
        black: C,
        primary: &P,
        bounce: &B,
        tint: &T,
        gather: &A,
        resolve: &Q,
    ) -> (image: Vec<u8>) where
        P: Fn(u32, u32) -> R,
        B: Fn(R) -> Bounce<R, C>,
        T: Fn(C, C) -> C,
        A: Fn(C, C) -> C,
        Q: Fn(C) -> Pixel,

        requires
            self.valid(),
            forall|i: u32, j: u32|
                i < self.image_width && j < self.image_height ==> call_requires(*primary, (i, j)),
            total1(*bounce),
            total2(*tint),
            total2(*gather),
            total1(*resolve),
        ensures
            image@.len() == 3 * self.image_width * self.image_height,
            forall|i: u32, j: u32|
                i < self.image_width && j < self.image_height ==> self.pixel_value(
                    shading(black, *primary, *bounce, *tint, *gather),
                    outputs1(*resolve),
                    i,
                    j,
                    #[trigger] pixel_at(image@, self.image_width, i, j),
                ),
    {
        let mut image: Vec<u8> = Vec::new();
        let mut j: u32 = 0;
        while j < self.image_height
            invariant
                j <= self.image_height,
                forall|i: u32, j: u32|
                    i < self.image_width && j < self.image_height ==> call_requires(
                        *primary,
                        (i, j),
                    ),
                total1(*bounce),
                total2(*tint),
                total2(*gather),
                total1(*resolve),
                image@.len() == 3 * (j * self.image_width),
                forall|column: u32, row: u32|
                    column < self.image_width && row < j ==> self.pixel_value(
                        shading(black, *primary, *bounce, *tint, *gather),
                        outputs1(*resolve),
                        column,
                        row,
                        #[trigger] pixel_at(image@, self.image_width, column, row),
                    ),
            decreases self.image_height - j,
        {
            let mut i: u32 = 0;
            while i < self.image_width
                invariant
                    i <= self.image_width,
                    j < self.image_height,
                    forall|i: u32, j: u32|
                        i < self.image_width && j < self.image_height ==> call_requires(
                            *primary,
                            (i, j),
                        ),
                    total1(*bounce),
                    total2(*tint),
                    total2(*gather),
                    total1(*resolve),
                    image@.len() == 3 * (j * self.image_width + i),
                    forall|column: u32, row: u32|
                        column < self.image_width && (row < j || (row == j && column < i))
                            ==> self.pixel_value(
                            shading(black, *primary, *bounce, *tint, *gather),
                            outputs1(*resolve),
                            column,
                            row,
                            #[trigger] pixel_at(image@, self.image_width, column, row),
                        ),
                decreases self.image_width - i,
            {
                let sum = self.sample_pixel(i, j, black, primary, bounce, tint, gather);
                let pixel = resolve(sum);
                let ghost before = image@;
                image.push(pixel.r);
                image.push(pixel.g);
                image.push(pixel.b);
                proof {
                    assert(outputs1(*resolve)(sum, pixel));
                    assert(pixel_at(image@, self.image_width, i, j) == pixel);
                    assert(self.pixel_value(
                        shading(black, *primary, *bounce, *tint, *gather),
                        outputs1(*resolve),
                        i,
                        j,
                        pixel,
                    ));
                    assert forall|column: u32, row: u32|
                        column < self.image_width && (row < j || (row == j && column < i))
                        implies #[trigger] pixel_at(image@, self.image_width, column, row)
                        == pixel_at(before, self.image_width, column, row) by {
                        lemma_row_major(self.image_width, column, row, i, j);
                    }
                }
                i += 1;
            }
            assert(3 * (j * self.image_width + self.image_width) == 3 * ((j + 1)
                * self.image_width)) by (nonlinear_arith);
            j += 1;
        }
        assert(3 * (self.image_height * self.image_width) == 3 * self.image_width
            * self.image_height) by (nonlinear_arith);
        image
    }
}

/// In an image stored row by row, a pixel that comes earlier in reading order
/// lies wholly before a later one.
pub proof fn lemma_row_major(width: u32, column: u32, row: u32, i: u32, j: u32)
    requires
        column < width,
        row < j || (row == j && column < i),
    ensures
        3 * (row * width + column) + 3 <= 3 * (j * width + i),
{
    if row < j {
        assert((row + 1) * width <= j * width) by (nonlinear_arith)
            requires
                row + 1 <= j,
                width >= 0,
        ;
        assert((row + 1) * width == row * width + width) by (nonlinear_arith);
    }
}

/// Every pixel of an image lies inside the bytes of the image.
pub proof fn lemma_pixel_in_image(width: u32, height: u32, i: u32, j: u32)
    requires
        i < width,
        j < height,
    ensures
        3 * (j * width + i) + 3 <= 3 * width * height,
{
    lemma_row_major(width, i, j, 0, height);
    assert(3 * (height * width + 0) == 3 * width * height) by (nonlinear_arith);
}

} // verus!
