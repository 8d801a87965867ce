//! The output image: a flat, row-major buffer of RGBA samples.

use vstd::prelude::*;
use crate::grid::{
    in_rect, lemma_index_in_bounds, lemma_index_injective, lemma_position_of_index,
};
use crate::pixel::Rgba;

verus! {

/// The mathematical content of an output image.
pub struct ImageView {
    pub width: nat,
    pub height: nat,
    /// The samples, row by row.
    pub pixels: Seq<Rgba>,
}

impl ImageView {
    /// There is one sample for each position.
    pub open spec fn well_formed(self) -> bool {
        self.pixels.len() == self.width * self.height
    }

    /// The sample at column `px`, row `pz`.
    pub open spec fn pixel(self, px: int, pz: int) -> Rgba {
        self.pixels[pz * self.width + px]
    }

    /// Whether column `px`, row `pz` lies in the image.
    pub open spec fn contains(self, px: int, pz: int) -> bool {
        0 <= px < self.width && 0 <= pz < self.height
    }

    /// Whether every sample is transparent.
    pub open spec fn is_blank(self) -> bool {
        forall|i: int| 0 <= i < self.pixels.len() ==> self.pixels[i] == Rgba::clear()
    }
}

/// One of the four bytes of a sample, in the order red, green, blue, alpha.
pub open spec fn channel(p: Rgba, c: int) -> u8 {
    if c == 0 {
        p.r
    } else if c == 1 {
        p.g
    } else if c == 2 {
        p.b
    } else {
        p.a
    }
}

/// The bytes of a sequence of samples: four for each sample.
pub open spec fn flat_bytes(pixels: Seq<Rgba>) -> Seq<u8> {
    Seq::new(4 * pixels.len(), |j: int| channel(pixels[j / 4], j % 4))
}

/// In a blank image every position holds the transparent sample.
pub proof fn lemma_blank_pixels(image: ImageView)
    requires
        image.well_formed(),
        image.is_blank(),
    ensures
        forall|px: int, pz: int|
            image.contains(px, pz) ==> #[trigger] image.pixel(px, pz) == Rgba::clear(),
{
    assert forall|px: int, pz: int| image.contains(px, pz) implies #[trigger] image.pixel(px, pz)
        == Rgba::clear() by {
        lemma_index_in_bounds(px, pz, image.width as int, image.height as int);
    }
}

/// Two images of the same size that agree at every position are the same
/// image.
pub proof fn lemma_same_pixels(a: ImageView, b: ImageView)
    requires
        a.well_formed(),
        b.well_formed(),
        a.width == b.width,
        a.height == b.height,
        forall|px: int, pz: int| a.contains(px, pz) ==> #[trigger] a.pixel(px, pz) == b.pixel(px, pz),
    ensures
        a == b,
{
    assert forall|i: int| 0 <= i < a.pixels.len() implies a.pixels[i] == b.pixels[i] by {
        lemma_position_of_index(i, a.width as int, a.height as int);
        assert(a.pixel(i % (a.width as int), i / (a.width as int)) == b.pixel(
            i % (a.width as int),
            i / (a.width as int),
        ));
    }
    assert(a.pixels =~= b.pixels);
}

/// A fixed-size RGBA image.
#[derive(Debug)]
pub struct OutputImage {
    width: usize,
    height: usize,
    pixels: Vec<Rgba>,
}

impl View for OutputImage {
    type V = ImageView;

    closed spec fn view(&self) -> ImageView {
        ImageView { width: self.width as nat, height: self.height as nat, pixels: self.pixels@ }
    }
}

impl OutputImage {
    #[verifier::type_invariant]
    spec fn sized(self) -> bool {
        self.pixels@.len() == self.width * self.height
    }

    /// A transparent image of `width * height` samples, or `None` where that
    /// many samples cannot be counted.
    pub fn new(width: usize, height: usize) -> (image: Option<OutputImage>)
        ensures
            image is Some <==> width * height <= usize::MAX,
            image matches Some(img) ==> img@.width == width && img@.height == height
                && img@.well_formed() && img@.is_blank(),
    {
        match width.checked_mul(height) {
            None => None,
            Some(count) => {
                let mut pixels: Vec<Rgba> = Vec::new();
                let mut i: usize = 0;
                while i < count
                    invariant
                        i <= count,
                        pixels@.len() == i,
                        forall|k: int| 0 <= k < i ==> pixels@[k] == Rgba::clear(),
                    decreases count - i,
                {
                    pixels.push(Rgba::transparent());
                    i += 1;
                }
                Some(OutputImage { width, height, pixels })
            },
        }
    }

    /// Number of columns.
    pub fn width(&self) -> (w: usize)
        ensures
            w == self@.width,
    {
        self.width
    }

    /// Number of rows.
    pub fn height(&self) -> (h: usize)
        ensures
            h == self@.height,
    {
        self.height
    }

    /// The sample at column `px`, row `pz`, if the image has that position.
    pub fn pixel(&self, px: usize, pz: usize) -> (p: Option<Rgba>)
        ensures
            p == (if self@.contains(px as int, pz as int) {
                Some(self@.pixel(px as int, pz as int))
            } else {
                None
            }),
    {
        proof {
            use_type_invariant(self);
        }
        if px < self.width && pz < self.height {
            proof {
                lemma_index_in_bounds(px as int, pz as int, self.width as int, self.height as int);
                assert(self.pixels@.len() == self.pixels.len());
            }
            Some(self.pixels[pz * self.width + px])
        } else {
            None
        }
    }

    /// Copies a block of `bw * bh` samples, given row by row, to the
    /// rectangle whose top left corner is `(x0, z0)`. Every other sample
    /// stays as it is.
    pub fn put_block(&mut self, x0: usize, z0: usize, bw: usize, bh: usize, block: &Vec<Rgba>)
        requires
            x0 + bw <= old(self)@.width,
            z0 + bh <= old(self)@.height,
            block@.len() == bw * bh,
        ensures
            final(self)@.width == old(self)@.width,
            final(self)@.height == old(self)@.height,
            final(self)@.well_formed(),
            forall|px: int, pz: int|
                old(self)@.contains(px, pz) ==> #[trigger] final(self)@.pixel(px, pz) == (if in_rect(
                    px,
                    pz,
                    x0 as int,
                    z0 as int,
                    bw as int,
                    bh as int,
                ) {
                    block@[(pz - z0) * bw + (px - x0)]
                } else {
                    old(self)@.pixel(px, pz)
                }),
    {
        proof {
            use_type_invariant(&*self);
        }
        let ghost before = self@;
        let mut lz: usize = 0;
        while lz < bh
            invariant
                lz <= bh,
                x0 + bw <= before.width,
                z0 + bh <= before.height,
                block@.len() == bw * bh,
                self@.width == before.width,
                self@.height == before.height,
                self@.well_formed(),
                before.well_formed(),
                forall|px: int, pz: int|
                    before.contains(px, pz) ==> #[trigger] self@.pixel(px, pz) == (if in_rect(
                        px,
                        pz,
                        x0 as int,
                        z0 as int,
                        bw as int,
                        lz as int,
                    ) {
                        block@[(pz - z0) * bw + (px - x0)]
                    } else {
                        before.pixel(px, pz)
                    }),
            decreases bh - lz,
        {
            let mut lx: usize = 0;
            while lx < bw
                invariant
                    lz < bh,
                    lx <= bw,
                    x0 + bw <= before.width,
                    z0 + bh <= before.height,
                    block@.len() == bw * bh,
                    self@.width == before.width,
                    self@.height == before.height,
                    self@.well_formed(),
                    before.well_formed(),
                    forall|px: int, pz: int|
                        before.contains(px, pz) ==> #[trigger] self@.pixel(px, pz) == (if in_rect(
                            px,
                            pz,
                            x0 as int,
                            z0 as int,
                            bw as int,
                            lz as int,
                        ) || in_rect(px, pz, x0 as int, z0 + lz, lx as int, 1) {
                            block@[(pz - z0) * bw + (px - x0)]
                        } else {
                            before.pixel(px, pz)
                        }),
                decreases bw - lx,
            {
                proof {
                    lemma_index_in_bounds(
                        x0 + lx,
                        z0 + lz,
                        before.width as int,
                        before.height as int,
                    );
                    lemma_index_in_bounds(lx as int, lz as int, bw as int, bh as int);
                    assert(self.pixels@.len() == self.pixels.len());
                    assert(block@.len() == block.len());
                }
                let target: usize = (z0 + lz) * self.width + (x0 + lx);
                let sample: Rgba = block[lz * bw + lx];
                let ghost prior = self@;
                self.pixels[target] = sample;
                proof {
                    assert forall|px: int, pz: int| before.contains(px, pz) implies #[trigger] self@.pixel(
                        px,
                        pz,
                    ) == (if in_rect(px, pz, x0 as int, z0 as int, bw as int, lz as int) || in_rect(
                        px,
                        pz,
                        x0 as int,
                        z0 + lz,
                        lx + 1,
                        1,
                    ) {
                        block@[(pz - z0) * bw + (px - x0)]
                    } else {
                        before.pixel(px, pz)
                    }) by {
                        lemma_index_in_bounds(px, pz, before.width as int, before.height as int);
                        if pz * before.width + px == target {
                            lemma_index_injective(
                                px,
                                pz,
                                x0 + lx,
                                z0 + lz,
                                before.width as int,
                            );
                        } else {
                            assert(self@.pixel(px, pz) == prior.pixel(px, pz));
                        }
                    }
                }
                lx += 1;
            }
            lz += 1;
        }
    }

    /// The image as a flat buffer of bytes: four for each sample, row by row.
    pub fn to_bytes(&self) -> (bytes: Vec<u8>)
        ensures
            bytes@ == flat_bytes(self@.pixels),
    {
        let mut bytes: Vec<u8> = Vec::new();
        let mut i: usize = 0;
        while i < self.pixels.len()
            invariant
                i <= self.pixels@.len(),
                bytes@.len() == 4 * i,
                forall|j: int| 0 <= j < 4 * i ==> bytes@[j] == channel(self.pixels@[j / 4], j % 4),
            decreases self.pixels@.len() - i,
        {
            let p: Rgba = self.pixels[i];
            bytes.push(p.r);
            bytes.push(p.g);
            bytes.push(p.b);
            bytes.push(p.a);
            i += 1;
        }
        bytes
    }
}

} // verus!
