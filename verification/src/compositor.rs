//! The tile compositor: one row-major scan over a tile's grid that shades
//! each decodable cell against the nearest decoded cell north of it.

use vstd::prelude::*;
use crate::cache::NeighborCache;
use crate::cell::{Cell, CellSource, Decoder, ShadingModel};
use crate::grid::{
    in_rect, lemma_block_end, lemma_block_in_grid, lemma_block_of_position, lemma_index_in_bounds,
    lemma_index_injective, lemma_position_of_index,
};
use crate::output::{lemma_blank_pixels, lemma_same_pixels, ImageView, OutputImage};
use crate::pixel::Rgba;

verus! {

/// Which of the two tiles handed to the compositor a cell belongs to.
#[derive(Clone, Copy, Debug, PartialEq, Eq, Structural)]
pub enum Tile {
    /// The tile being drawn.
    Current,
    /// The tile north of it.
    North,
}

/// A present cell whose data could not be decoded. It is drawn as if it were
/// absent.
#[derive(Clone, Copy, Debug, PartialEq, Eq, Structural)]
pub struct DecodeFailure {
    pub tile: Tile,
    pub x: usize,
    pub z: usize,
}

/// Inputs that no image can be drawn from.
#[derive(Clone, Copy, Debug, PartialEq, Eq, Structural)]
pub enum ConfigurationError {
    /// The north tile's grid does not have the dimensions of the current
    /// tile's grid.
    GridMismatch,
    /// The image would have more samples than can be counted.
    ImageTooLarge,
}

/// What a composition yields: the image, and the cells that could not be
/// decoded.
#[derive(Debug)]
pub struct Composite {
    pub image: OutputImage,
    pub diagnostics: Vec<DecodeFailure>,
}

/// The decoded cell at column `x`, row `z` of `region`: `None` for a
/// position outside the grid, an absent cell or a cell that cannot be
/// decoded.
pub open spec fn decoded_cell<S: CellSource, D: Decoder<Raw = S::Raw>>(
    region: &S,
    decoder: &D,
    x: int,
    z: int,
) -> Option<D::Handle> {
    if 0 <= x < region.grid_width() && 0 <= z < region.grid_height() {
        match region.cell_at(x as nat, z as nat) {
            Cell::Present(raw) => decoder.decoding(raw),
            Cell::Absent => None,
        }
    } else {
        None
    }
}

/// The cell at column `x`, row `z` of `region` is present and cannot be
/// decoded.
pub open spec fn is_corrupt<S: CellSource, D: Decoder<Raw = S::Raw>>(
    region: &S,
    decoder: &D,
    x: int,
    z: int,
) -> bool {
    &&& 0 <= x < region.grid_width()
    &&& 0 <= z < region.grid_height()
    &&& region.cell_at(x as nat, z as nat) matches Cell::Present(raw) && decoder.decoding(raw) is None
}

/// The neighbour that column `x` starts with: the decoded cell of the north
/// tile's last row, if there is a north tile.
pub open spec fn seeded_neighbor<S: CellSource, D: Decoder<Raw = S::Raw>>(
    north_region: Option<&S>,
    decoder: &D,
    x: int,
) -> Option<D::Handle> {
    match north_region {
        Some(north) => decoded_cell(north, decoder, x, north.grid_height() - 1),
        None => None,
    }
}

/// The neighbour against which the cell at column `x`, row `z` is shaded:
/// the nearest decoded cell above it in its column, and the column's seed
/// where there is none. An absent or corrupt cell in between is passed over.
pub open spec fn north_neighbor<S: CellSource, D: Decoder<Raw = S::Raw>>(
    region: &S,
    north_region: Option<&S>,
    decoder: &D,
    x: int,
    z: int,
) -> Option<D::Handle>
    decreases z,
{
    if z <= 0 {
        seeded_neighbor(north_region, decoder, x)
    } else {
        match decoded_cell(region, decoder, x, z - 1) {
            Some(above) => Some(above),
            None => north_neighbor(region, north_region, decoder, x, z - 1),
        }
    }
}

/// The block of samples drawn for the cell at column `x`, row `z`, or `None`
/// where nothing is drawn for it.
pub open spec fn cell_block<S, D, M>(
    region: &S,
    north_region: Option<&S>,
    decoder: &D,
    model: &M,
    x: int,
    z: int,
) -> Option<Seq<Rgba>> where
    S: CellSource,
    D: Decoder<Raw = S::Raw>,
    M: ShadingModel<Handle = D::Handle>,
 {
    match decoded_cell(region, decoder, x, z) {
        Some(cell) => Some(
            model.shading(cell, north_neighbor(region, north_region, decoder, x, z)),
        ),
        None => None,
    }
}

/// The sample at column `px`, row `pz` of the composed image: a sample of
/// the block of the cell that covers the position, and transparent where no
/// block is drawn.
pub open spec fn pixel_at<S, D, M>(
    region: &S,
    north_region: Option<&S>,
    decoder: &D,
    model: &M,
    px: int,
    pz: int,
) -> Rgba where S: CellSource, D: Decoder<Raw = S::Raw>, M: ShadingModel<Handle = D::Handle> {
    let bw = model.block_width() as int;
    let bh = model.block_height() as int;
    match cell_block(region, north_region, decoder, model, px / bw, pz / bh) {
        Some(block) => block[(pz % bh) * bw + px % bw],
        None => Rgba::clear(),
    }
}

/// The corrupt cells among the first `n` columns of row `z`, by column.
pub open spec fn failures_in_row<S: CellSource, D: Decoder<Raw = S::Raw>>(
    region: &S,
    decoder: &D,
    tile: Tile,
    z: int,
    n: int,
) -> Seq<DecodeFailure>
    decreases n,
{
    if n <= 0 {
        Seq::empty()
    } else {
        let before = failures_in_row(region, decoder, tile, z, n - 1);
        if is_corrupt(region, decoder, n - 1, z) {
            before.push(DecodeFailure { tile, x: (n - 1) as usize, z: z as usize })
        } else {
            before
        }
    }
}

/// The corrupt cells of the first `rows` rows of the current tile, row by
/// row.
pub open spec fn failures_in_rows<S: CellSource, D: Decoder<Raw = S::Raw>>(
    region: &S,
    decoder: &D,
    rows: int,
) -> Seq<DecodeFailure>
    decreases rows,
{
    if rows <= 0 {
        Seq::empty()
    } else {
        failures_in_rows(region, decoder, rows - 1) + failures_in_row(
            region,
            decoder,
            Tile::Current,
            rows - 1,
            region.grid_width() as int,
        )
    }
}

/// The corrupt cells met while seeding `width` columns from the north tile.
pub open spec fn seed_failures<S: CellSource, D: Decoder<Raw = S::Raw>>(
    north_region: Option<&S>,
    decoder: &D,
    width: int,
) -> Seq<DecodeFailure> {
    match north_region {
        Some(north) => failures_in_row(
            north,
            decoder,
            Tile::North,
            north.grid_height() - 1,
            if width <= north.grid_width() {
                width
            } else {
                north.grid_width() as int
            },
        ),
        None => Seq::empty(),
    }
}

/// The diagnostics of a composition: the corrupt cells in the order in which
/// the scan meets them, those of the north tile's last row first.
pub open spec fn diagnostics_of<S: CellSource, D: Decoder<Raw = S::Raw>>(
    region: &S,
    north_region: Option<&S>,
    decoder: &D,
) -> Seq<DecodeFailure> {
    seed_failures(north_region, decoder, region.grid_width() as int) + failures_in_rows(
        region,
        decoder,
        region.grid_height() as int,
    )
}

/// The north tile's grid differs in size from the current tile's.
pub open spec fn grid_mismatch<S: CellSource>(region: &S, north_region: Option<&S>) -> bool {
    north_region matches Some(north) && (north.grid_width() != region.grid_width()
        || north.grid_height() != region.grid_height())
}

/// The image of `columns * rows` blocks of `bw * bh` samples can be held.
pub open spec fn image_fits(columns: nat, rows: nat, bw: nat, bh: nat) -> bool {
    &&& columns * bw <= usize::MAX
    &&& rows * bh <= usize::MAX
    &&& (columns * bw) * (rows * bh) <= usize::MAX
}

/// `image` is the composition of `region` with `north_region` to its north.
pub open spec fn is_composition<S, D, M>(
    image: ImageView,
    region: &S,
    north_region: Option<&S>,
    decoder: &D,
    model: &M,
) -> bool where S: CellSource, D: Decoder<Raw = S::Raw>, M: ShadingModel<Handle = D::Handle> {
    &&& image.width == region.grid_width() * model.block_width()
    &&& image.height == region.grid_height() * model.block_height()
    &&& image.well_formed()
    &&& forall|px: int, pz: int|
        image.contains(px, pz) ==> #[trigger] image.pixel(px, pz) == pixel_at(
            region,
            north_region,
            decoder,
            model,
            px,
            pz,
        )
}

/// The composition of `region` with `north_region` to its north: an image
/// of one block for each cell, whose samples are those of `pixel_at`.
pub open spec fn composition_of<S, D, M>(
    region: &S,
    north_region: Option<&S>,
    decoder: &D,
    model: &M,
) -> ImageView where S: CellSource, D: Decoder<Raw = S::Raw>, M: ShadingModel<Handle = D::Handle> {
    let width = region.grid_width() * model.block_width();
    let height = region.grid_height() * model.block_height();
    ImageView {
        width,
        height,
        pixels: Seq::new(
            width * height,
            |i: int|
                pixel_at(
                    region,
                    north_region,
                    decoder,
                    model,
                    i % (width as int),
                    i / (width as int),
                ),
        ),
    }
}

/// An image is the composition of its inputs exactly when it is
/// `composition_of` them.
pub proof fn lemma_composition_unique<S, D, M>(
    image: ImageView,
    region: &S,
    north_region: Option<&S>,
    decoder: &D,
    model: &M,
) where S: CellSource, D: Decoder<Raw = S::Raw>, M: ShadingModel<Handle = D::Handle>
    ensures
        is_composition(image, region, north_region, decoder, model) <==> image == composition_of(
            region,
            north_region,
            decoder,
            model,
        ),
{
    let whole = composition_of(region, north_region, decoder, model);
    assert(whole.well_formed());
    assert forall|px: int, pz: int| whole.contains(px, pz) implies #[trigger] whole.pixel(px, pz)
        == pixel_at(region, north_region, decoder, model, px, pz) by {
        lemma_index_in_bounds(px, pz, whole.width as int, whole.height as int);
        lemma_position_of_index(pz * whole.width + px, whole.width as int, whole.height as int);
        lemma_index_injective(
            px,
            pz,
            (pz * whole.width + px) % (whole.width as int),
            (pz * whole.width + px) / (whole.width as int),
            whole.width as int,
        );
    }
    if is_composition(image, region, north_region, decoder, model) {
        lemma_same_pixels(image, whole);
    }
}

/// The cell at column `cx`, row `cz` comes before column `x` of row `z` in
/// the scan.
spec fn scanned(cx: int, cz: int, x: int, z: int) -> bool {
    cz < z || (cz == z && cx < x)
}

/// What the image holds when the scan stands before column `x` of row `z`:
/// the cells before that are drawn, the rest is transparent.
spec fn drawn_up_to<S, D, M>(
    image: ImageView,
    region: &S,
    north_region: Option<&S>,
    decoder: &D,
    model: &M,
    x: int,
    z: int,
) -> bool where S: CellSource, D: Decoder<Raw = S::Raw>, M: ShadingModel<Handle = D::Handle> {
    forall|px: int, pz: int|
        image.contains(px, pz) ==> #[trigger] image.pixel(px, pz) == (if scanned(
            px / (model.block_width() as int),
            pz / (model.block_height() as int),
            x,
            z,
        ) {
            pixel_at(region, north_region, decoder, model, px, pz)
        } else {
            Rgba::clear()
        })
}

/// What the cache holds when the scan stands before column `x` of row `z`:
/// the columns before `x` hold their neighbour for row `z + 1`, the others
/// their neighbour for row `z`.
spec fn cached_up_to<S: CellSource, D: Decoder<Raw = S::Raw>>(
    cache: Seq<Option<D::Handle>>,
    region: &S,
    north_region: Option<&S>,
    decoder: &D,
    x: int,
    z: int,
) -> bool {
    &&& cache.len() == region.grid_width()
    &&& forall|c: int|
        0 <= c < cache.len() ==> #[trigger] cache[c] == north_neighbor(
            region,
            north_region,
            decoder,
            c,
            if c < x {
                z + 1
            } else {
                z
            },
        )
}

/// A row without corrupt cells among its first `n` columns yields no
/// failures there.
pub proof fn lemma_clean_row<S: CellSource, D: Decoder<Raw = S::Raw>>(
    region: &S,
    decoder: &D,
    tile: Tile,
    z: int,
    n: int,
)
    requires
        forall|c: int| 0 <= c < n ==> !is_corrupt(region, decoder, c, z),
    ensures
        failures_in_row(region, decoder, tile, z, n) == Seq::<DecodeFailure>::empty(),
    decreases n,
{
    if n > 0 {
        lemma_clean_row(region, decoder, tile, z, n - 1);
    }
}

proof fn lemma_cell_skipped<S, D, M>(
    image: ImageView,
    region: &S,
    north_region: Option<&S>,
    decoder: &D,
    model: &M,
    x: int,
    z: int,
) where S: CellSource, D: Decoder<Raw = S::Raw>, M: ShadingModel<Handle = D::Handle>
    requires
        drawn_up_to(image, region, north_region, decoder, model, x, z),
        decoded_cell(region, decoder, x, z) is None,
    ensures
        drawn_up_to(image, region, north_region, decoder, model, x + 1, z),
{
}

proof fn lemma_cell_drawn<S, D, M>(
    before: ImageView,
    after: ImageView,
    region: &S,
    north_region: Option<&S>,
    decoder: &D,
    model: &M,
    x: int,
    z: int,
    block: Seq<Rgba>,
) where S: CellSource, D: Decoder<Raw = S::Raw>, M: ShadingModel<Handle = D::Handle>
    requires
        before.width == region.grid_width() * model.block_width(),
        before.height == region.grid_height() * model.block_height(),
        after.width == before.width,
        after.height == before.height,
        drawn_up_to(before, region, north_region, decoder, model, x, z),
        cell_block(region, north_region, decoder, model, x, z) == Some(block),
        forall|px: int, pz: int|
            before.contains(px, pz) ==> #[trigger] after.pixel(px, pz) == (if in_rect(
                px,
                pz,
                x * model.block_width(),
                z * model.block_height(),
                model.block_width() as int,
                model.block_height() as int,
            ) {
                block[(pz - z * model.block_height()) * model.block_width() + (px - x
                    * model.block_width())]
            } else {
                before.pixel(px, pz)
            }),
    ensures
        drawn_up_to(after, region, north_region, decoder, model, x + 1, z),
{
    let bw = model.block_width() as int;
    let bh = model.block_height() as int;
    assert forall|px: int, pz: int| after.contains(px, pz) implies #[trigger] after.pixel(px, pz)
        == (if scanned(px / bw, pz / bh, x + 1, z) {
        pixel_at(region, north_region, decoder, model, px, pz)
    } else {
        Rgba::clear()
    }) by {
        lemma_block_in_grid(px, bw, region.grid_width() as int);
        lemma_block_in_grid(pz, bh, region.grid_height() as int);
        lemma_block_of_position(px, bw, x);
        lemma_block_of_position(pz, bh, z);
    }
}

proof fn lemma_row_drawn<S, D, M>(
    image: ImageView,
    region: &S,
    north_region: Option<&S>,
    decoder: &D,
    model: &M,
    z: int,
) where S: CellSource, D: Decoder<Raw = S::Raw>, M: ShadingModel<Handle = D::Handle>
    requires
        image.width == region.grid_width() * model.block_width(),
        drawn_up_to(
            image,
            region,
            north_region,
            decoder,
            model,
            region.grid_width() as int,
            z,
        ),
    ensures
        drawn_up_to(image, region, north_region, decoder, model, 0, z + 1),
{
    let bw = model.block_width() as int;
    let bh = model.block_height() as int;
    assert forall|px: int, pz: int| image.contains(px, pz) implies #[trigger] image.pixel(px, pz)
        == (if scanned(px / bw, pz / bh, 0, z + 1) {
        pixel_at(region, north_region, decoder, model, px, pz)
    } else {
        Rgba::clear()
    }) by {
        lemma_block_in_grid(px, bw, region.grid_width() as int);
    }
}

proof fn lemma_all_drawn<S, D, M>(
    image: ImageView,
    region: &S,
    north_region: Option<&S>,
    decoder: &D,
    model: &M,
) where S: CellSource, D: Decoder<Raw = S::Raw>, M: ShadingModel<Handle = D::Handle>
    requires
        image.width == region.grid_width() * model.block_width(),
        image.height == region.grid_height() * model.block_height(),
        image.well_formed(),
        drawn_up_to(
            image,
            region,
            north_region,
            decoder,
            model,
            0,
            region.grid_height() as int,
        ),
    ensures
        is_composition(image, region, north_region, decoder, model),
{
    let bh = model.block_height() as int;
    assert forall|px: int, pz: int| image.contains(px, pz) implies #[trigger] image.pixel(px, pz)
        == pixel_at(region, north_region, decoder, model, px, pz) by {
        lemma_block_in_grid(pz, bh, region.grid_height() as int);
    }
}

/// Seeds a cache of `width` columns from the last row of the north tile: a
/// column gets the decoded cell of that row, and no neighbour where there is
/// no north tile, no such cell, or the cell cannot be decoded. The cells
/// that cannot be decoded are returned with the cache.
pub fn seed_cache<S, D>(north_region: Option<&S>, decoder: &D, width: usize) -> (seeded: (
    NeighborCache<D::Handle>,
    Vec<DecodeFailure>,
)) where S: CellSource, D: Decoder<Raw = S::Raw>
    ensures
        seeded.0@ == Seq::new(
            width as nat,
            |x: int| seeded_neighbor(north_region, decoder, x),
        ),
        seeded.1@ == seed_failures(north_region, decoder, width as int),
        north_region is None ==> seeded.1@.len() == 0 && forall|x: int|
            0 <= x < width ==> seeded.0@[x] is None,
{
    let mut cache: NeighborCache<D::Handle> = NeighborCache::new(width);
    let mut diagnostics: Vec<DecodeFailure> = Vec::new();
    match north_region {
        None => {},
        Some(north) => {
            let north_width: usize = north.width();
            let north_height: usize = north.height();
            let columns: usize = if width <= north_width {
                width
            } else {
                north_width
            };
            if north_height > 0 {
                let last: usize = north_height - 1;
                let mut x: usize = 0;
                while x < columns
                    invariant
                        x <= columns,
                        columns <= width,
                        columns <= north.grid_width(),
                        last == north.grid_height() - 1,
                        cache@.len() == width,
                        forall|c: int|
                            0 <= c < x ==> cache@[c] == decoded_cell(north, decoder, c, last as int),
                        forall|c: int| x <= c < width ==> cache@[c] is None,
                        diagnostics@ == failures_in_row(
                            north,
                            decoder,
                            Tile::North,
                            last as int,
                            x as int,
                        ),
                    decreases columns - x,
                {
                    match north.fetch(x, last) {
                        Cell::Absent => {
                            cache.seed(x, None);
                        },
                        Cell::Present(raw) => {
                            match decoder.decode(raw) {
                                Ok(handle) => {
                                    cache.seed(x, Some(handle));
                                },
                                Err(_) => {
                                    cache.seed(x, None);
                                    diagnostics.push(
                                        DecodeFailure { tile: Tile::North, x, z: last },
                                    );
                                },
                            }
                        },
                    }
                    x += 1;
                }
            } else {
                proof {
                    lemma_clean_row(north, decoder, Tile::North, -1, columns as int);
                }
            }
        },
    }
    (cache, diagnostics)
}

/// Composes the image of `region`: each cell that can be decoded is shaded
/// against its north neighbour, and its block is drawn at the cell's place.
/// Absent cells and cells that cannot be decoded leave their place
/// transparent; the latter are listed in the diagnostics, in scan order.
///
/// The north neighbour of a cell is the nearest cell above it in its column
/// that could be decoded. An absent or corrupt cell does not clear it: the
/// cell below is then shaded against a cell that lies further north, which
/// for the first rows may be a cell of the last row of `north_region`.
/// Where the column holds no decoded cell above, there is no neighbour.
///
/// A north tile whose grid differs in size from that of `region` is refused
/// before anything is drawn, and so is an image with more samples than can
/// be counted.
pub fn render_region<S, D, M>(
    region: &S,
    north_region: Option<&S>,
    decoder: &D,
    renderer: &M,
) -> (result: Result<Composite, ConfigurationError>) where
    S: CellSource,
    D: Decoder<Raw = S::Raw>,
    M: ShadingModel<Handle = D::Handle>,

    ensures
        match result {
            Ok(composite) => {
                &&& !grid_mismatch(region, north_region)
                &&& image_fits(
                    region.grid_width(),
                    region.grid_height(),
                    renderer.block_width(),
                    renderer.block_height(),
                )
                &&& is_composition(composite.image@, region, north_region, decoder, renderer)
                &&& composite.image@ == composition_of(region, north_region, decoder, renderer)
                &&& composite.diagnostics@ == diagnostics_of(region, north_region, decoder)
            },
            Err(ConfigurationError::GridMismatch) => grid_mismatch(region, north_region),
            Err(ConfigurationError::ImageTooLarge) => {
                &&& !grid_mismatch(region, north_region)
                &&& !image_fits(
                    region.grid_width(),
                    region.grid_height(),
                    renderer.block_width(),
                    renderer.block_height(),
                )
            },
        },
{
    let width: usize = region.width();
    let height: usize = region.height();
    match north_region {
        Some(north) => {
            if north.width() != width || north.height() != height {
                return Err(ConfigurationError::GridMismatch);
            }
        },
        None => {},
    }
    let bw: usize = renderer.cell_pixel_width();
    let bh: usize = renderer.cell_pixel_height();
    let image_width: usize = match width.checked_mul(bw) {
        Some(n) => n,
        None => {
            return Err(ConfigurationError::ImageTooLarge);
        },
    };
    let image_height: usize = match height.checked_mul(bh) {
        Some(n) => n,
        None => {
            return Err(ConfigurationError::ImageTooLarge);
        },
    };
    let mut image: OutputImage = match OutputImage::new(image_width, image_height) {
        Some(image) => image,
        None => {
            return Err(ConfigurationError::ImageTooLarge);
        },
    };
    proof {
        lemma_blank_pixels(image@);
    }
    let (mut cache, mut diagnostics) = seed_cache(north_region, decoder, width);
    let ghost seeds = diagnostics@;
    let mut z: usize = 0;
    while z < height
        invariant
            z <= height,
            width == region.grid_width(),
            height == region.grid_height(),
            bw == renderer.block_width(),
            bh == renderer.block_height(),
            width * bw <= usize::MAX,
            height * bh <= usize::MAX,
            image@.width == width * bw,
            image@.height == height * bh,
            image@.well_formed(),
            drawn_up_to(image@, region, north_region, decoder, renderer, 0, z as int),
            cached_up_to(cache@, region, north_region, decoder, 0, z as int),
            diagnostics@ == seeds + failures_in_rows(region, decoder, z as int),
        decreases height - z,
    {
        let mut x: usize = 0;
        while x < width
            invariant
                z < height,
                x <= width,
                width == region.grid_width(),
                height == region.grid_height(),
                bw == renderer.block_width(),
                bh == renderer.block_height(),
                width * bw <= usize::MAX,
                height * bh <= usize::MAX,
                image@.width == width * bw,
                image@.height == height * bh,
                image@.well_formed(),
                drawn_up_to(image@, region, north_region, decoder, renderer, x as int, z as int),
                cached_up_to(cache@, region, north_region, decoder, x as int, z as int),
                diagnostics@ == seeds + failures_in_rows(region, decoder, z as int)
                    + failures_in_row(region, decoder, Tile::Current, z as int, x as int),
            decreases width - x,
        {
            let ghost image_before = image@;
            let ghost cache_before = cache@;
            match region.fetch(x, z) {
                Cell::Absent => {
                    proof {
                        lemma_cell_skipped(
                            image@,
                            region,
                            north_region,
                            decoder,
                            renderer,
                            x as int,
                            z as int,
                        );
                    }
                },
                Cell::Present(raw) => {
                    match decoder.decode(raw) {
                        Err(_) => {
                            diagnostics.push(DecodeFailure { tile: Tile::Current, x, z });
                            proof {
                                lemma_cell_skipped(
                                    image@,
                                    region,
                                    north_region,
                                    decoder,
                                    renderer,
                                    x as int,
                                    z as int,
                                );
                            }
                        },
                        Ok(handle) => {
                            let block = renderer.render(&handle, cache.neighbor(x));
                            proof {
                                lemma_block_end(x as int, bw as int, width as int);
                                lemma_block_end(z as int, bh as int, height as int);
                            }
                            image.put_block(x * bw, z * bh, bw, bh, &block);
                            cache.update(x, Some(handle));
                            proof {
                                lemma_cell_drawn(
                                    image_before,
                                    image@,
                                    region,
                                    north_region,
                                    decoder,
                                    renderer,
                                    x as int,
                                    z as int,
                                    block@,
                                );
                            }
                        },
                    }
                },
            }
            x += 1;
        }
        proof {
            lemma_row_drawn(image@, region, north_region, decoder, renderer, z as int);
        }
        z += 1;
    }
    proof {
        lemma_all_drawn(image@, region, north_region, decoder, renderer);
        lemma_composition_unique(image@, region, north_region, decoder, renderer);
    }
    Ok(Composite { image, diagnostics })
}

} // verus!
