//! Rendering a tile to an encoded PNG image.

use vstd::prelude::*;
use image::png::PngEncoder;
use image::{ColorType, ImageError};
use crate::cell::{CellSource, Decoder, ShadingModel};
use crate::compositor::{
    composition_of, diagnostics_of, grid_mismatch, image_fits, render_region, ConfigurationError,
    DecodeFailure,
};
use crate::output::flat_bytes;

verus! {

/// The error type of the `image` crate, carried through as it is.
#[verifier::external_type_specification]
#[verifier::external_body]
pub struct ExImageError(ImageError);

/// The PNG file that the encoder of the `image` crate writes for 8-bit RGBA
/// data of `width * height` samples, or `None` where it refuses the image.
pub uninterp spec fn png_encoding(data: Seq<u8>, width: u32, height: u32) -> Option<Seq<u8>>;

/// Calls `image::png::PngEncoder::encode` with the colour type `Rgba8` on an
/// encoder that writes to a fresh vector. What it writes is a function of
/// the data and the dimensions, named `png_encoding` here; nothing is
/// claimed of the file's content. The encoder refuses an image without
/// columns or without rows.
#[verifier::external_body]
fn encode_png(data: &Vec<u8>, width: u32, height: u32) -> (encoded: Result<Vec<u8>, ImageError>)
    requires
        data@.len() == 4 * width * height,
    ensures
        match encoded {
            Ok(png) => png_encoding(data@, width, height) == Some(png@),
            Err(_) => png_encoding(data@, width, height) is None,
        },
        width == 0 || height == 0 ==> encoded is Err,
{
    let mut png: Vec<u8> = Vec::new();
    match PngEncoder::new(&mut png).encode(data, width, height, ColorType::Rgba8) {
        Ok(()) => Ok(png),
        Err(e) => Err(e),
    }
}

/// A rendered tile.
#[derive(Debug)]
pub struct Rendered {
    /// The image as a PNG file.
    pub png: Vec<u8>,
    /// The cells that could not be decoded.
    pub diagnostics: Vec<DecodeFailure>,
}

/// Why a tile could not be rendered.
#[derive(Clone, Copy, Debug, PartialEq, Eq, Structural)]
pub enum RenderError {
    /// The tiles cannot be composed.
    Configuration(ConfigurationError),
    /// The image has more columns or rows than a PNG file can record.
    Oversized,
    /// The encoder refused the image.
    Encoding,
}

/// What rendering returns once the encoder has answered: the file with the
/// diagnostics, or the encoding error.
pub fn finish_render(encoded: Result<Vec<u8>, ImageError>, diagnostics: Vec<DecodeFailure>) -> (result:
    Result<Rendered, RenderError>)
    ensures
        match encoded {
            Ok(png) => result matches Ok(rendered) && rendered.png@ == png@
                && rendered.diagnostics@ == diagnostics@,
            Err(_) => result == Err::<Rendered, RenderError>(RenderError::Encoding),
        },
{
    match encoded {
        Ok(png) => Ok(Rendered { png, diagnostics }),
        Err(_) => Err(RenderError::Encoding),
    }
}

/// Renders tiles with one decoder and one shading model.
pub struct TileRenderer<D, M> {
    pub decoder: D,
    pub model: M,
}

impl<D: Decoder, M: ShadingModel<Handle = D::Handle>> TileRenderer<D, M> {
    /// A renderer that decodes with `decoder` and shades with `model`.
    pub fn new(decoder: D, model: M) -> (renderer: Self)
        ensures
            renderer.decoder == decoder,
            renderer.model == model,
    {
        TileRenderer { decoder, model }
    }

    /// The PNG file of the composition of `region` with `north_region` to
    /// its north, and the cells that could not be decoded. The encoder
    /// refuses an image without columns or without rows.
    pub fn render<S: CellSource<Raw = D::Raw>>(&self, region: &S, north_region: Option<&S>) -> (result:
        Result<Rendered, RenderError>)
        ensures
            match result {
                Ok(rendered) => {
                    &&& can_encode(region, north_region, &self.model)
                    &&& png_of(region, north_region, &self.decoder, &self.model) == Some(
                        rendered.png@,
                    )
                    &&& rendered.diagnostics@ == diagnostics_of(
                        region,
                        north_region,
                        &self.decoder,
                    )
                },
                Err(RenderError::Configuration(ConfigurationError::GridMismatch)) => grid_mismatch(
                    region,
                    north_region,
                ),
                Err(RenderError::Configuration(ConfigurationError::ImageTooLarge)) => {
                    &&& !grid_mismatch(region, north_region)
                    &&& !image_fits(
                        region.grid_width(),
                        region.grid_height(),
                        self.model.block_width(),
                        self.model.block_height(),
                    )
                },
                Err(RenderError::Oversized) => {
                    &&& can_compose(region, north_region, &self.model)
                    &&& !can_encode(region, north_region, &self.model)
                },
                Err(RenderError::Encoding) => {
                    &&& can_encode(region, north_region, &self.model)
                    &&& png_of(region, north_region, &self.decoder, &self.model) is None
                },
            },
            result is Ok ==> region.grid_width() * self.model.block_width() > 0
                && region.grid_height() * self.model.block_height() > 0,
    {
        let composite = match render_region(region, north_region, &self.decoder, &self.model) {
            Ok(composite) => composite,
            Err(e) => {
                return Err(RenderError::Configuration(e));
            },
        };
        let width: usize = composite.image.width();
        let height: usize = composite.image.height();
        if width > u32::MAX as usize || height > u32::MAX as usize {
            return Err(RenderError::Oversized);
        }
        let bytes = composite.image.to_bytes();
        proof {
            assert(4 * (width * height) == 4 * width * height) by (nonlinear_arith);
        }
        let encoded = encode_png(&bytes, width as u32, height as u32);
        finish_render(encoded, composite.diagnostics)
    }
}

/// The tiles can be composed: the grids agree and the image can be held.
pub open spec fn can_compose<S: CellSource, M: ShadingModel>(
    region: &S,
    north_region: Option<&S>,
    model: &M,
) -> bool {
    &&& !grid_mismatch(region, north_region)
    &&& image_fits(
        region.grid_width(),
        region.grid_height(),
        model.block_width(),
        model.block_height(),
    )
}

/// The tiles can be composed, and a PNG file can record the image's size.
pub open spec fn can_encode<S: CellSource, M: ShadingModel>(
    region: &S,
    north_region: Option<&S>,
    model: &M,
) -> bool {
    &&& can_compose(region, north_region, model)
    &&& region.grid_width() * model.block_width() <= u32::MAX
    &&& region.grid_height() * model.block_height() <= u32::MAX
}

/// The PNG file of the composition of `region`, where the encoder accepts
/// it.
pub open spec fn png_of<S, D, M>(
    region: &S,
    north_region: Option<&S>,
    decoder: &D,
    model: &M,
) -> Option<Seq<u8>> where S: CellSource, D: Decoder<Raw = S::Raw>, M: ShadingModel<Handle = D::Handle> {
    png_encoding(
        flat_bytes(composition_of(region, north_region, decoder, model).pixels),
        (region.grid_width() * model.block_width()) as u32,
        (region.grid_height() * model.block_height()) as u32,
    )
}

} // verus!
