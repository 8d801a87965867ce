//! What holds of every composition.

use vstd::prelude::*;
use crate::cell::{CellSource, Decoder, ShadingModel};
use vstd::seq_lib::{
    lemma_no_dup_in_concat, lemma_seq_concat_contains_all_elements, lemma_seq_contains_after_push,
    to_multiset_contains,
};
use crate::compositor::{
    cell_block, composition_of, decoded_cell, diagnostics_of, failures_in_row, failures_in_rows,
    is_composition, is_corrupt, lemma_clean_row, lemma_composition_unique, north_neighbor,
    pixel_at, seed_failures, seeded_neighbor, DecodeFailure, Tile,
};
use crate::output::{flat_bytes, ImageView};
use crate::pixel::Rgba;

verus! {

/// Composing is a function of its inputs: two images composed from the same
/// tiles with the same decoder and shading model are the same image, byte
/// for byte.
pub proof fn law_composition_deterministic<S, D, M>(
    first: ImageView,
    second: ImageView,
    region: &S,
    north_region: Option<&S>,
    decoder: &D,
    model: &M,
) where S: CellSource, D: Decoder<Raw = S::Raw>, M: ShadingModel<Handle = D::Handle>
    requires
        is_composition(first, region, north_region, decoder, model),
        is_composition(second, region, north_region, decoder, model),
    ensures
        first == second,
        flat_bytes(first.pixels) == flat_bytes(second.pixels),
{
    lemma_composition_unique(first, region, north_region, decoder, model);
    lemma_composition_unique(second, region, north_region, decoder, model);
}

/// Without a north tile every column starts with no neighbour, and each
/// decodable cell of the first row is shaded against no neighbour.
pub proof fn law_first_row_without_north<S, D, M>(region: &S, decoder: &D, model: &M, x: int) where
    S: CellSource,
    D: Decoder<Raw = S::Raw>,
    M: ShadingModel<Handle = D::Handle>,

    ensures
        seeded_neighbor(None::<&S>, decoder, x) is None,
        north_neighbor(region, None, decoder, x, 0) is None,
        decoded_cell(region, decoder, x, 0) matches Some(cell) ==> cell_block(
            region,
            None,
            decoder,
            model,
            x,
            0,
        ) == Some(model.shading(cell, None)),
{
}

/// Where the cell in column `x` of the north tile's last row can be
/// decoded, a decodable cell in column `x` of the first row is shaded
/// against it.
pub proof fn law_first_row_with_north<S, D, M>(
    region: &S,
    north: &S,
    decoder: &D,
    model: &M,
    x: int,
    neighbor: D::Handle,
) where S: CellSource, D: Decoder<Raw = S::Raw>, M: ShadingModel<Handle = D::Handle>
    requires
        decoded_cell(north, decoder, x, north.grid_height() - 1) == Some(neighbor),
    ensures
        north_neighbor(region, Some(north), decoder, x, 0) == Some(neighbor),
        decoded_cell(region, decoder, x, 0) matches Some(cell) ==> cell_block(
            region,
            Some(north),
            decoder,
            model,
            x,
            0,
        ) == Some(model.shading(cell, Some(neighbor))),
{
}

/// Below the first row a decodable cell is shaded against the cell directly
/// above it where that one can be decoded, and against the neighbour of the
/// cell above where it cannot: an absent or corrupt cell leaves the column's
/// neighbour as it was.
pub proof fn law_neighbor_carries_over<S: CellSource, D: Decoder<Raw = S::Raw>>(
    region: &S,
    north_region: Option<&S>,
    decoder: &D,
    x: int,
    z: int,
)
    requires
        z > 0,
    ensures
        north_neighbor(region, north_region, decoder, x, z) == (match decoded_cell(
            region,
            decoder,
            x,
            z - 1,
        ) {
            Some(above) => Some(above),
            None => north_neighbor(region, north_region, decoder, x, z - 1),
        }),
{
}

/// The size of the image is that of the grid in blocks, whatever the cells
/// hold: two tiles with grids of the same size compose to images of the
/// same size.
pub proof fn law_image_size_fixed<S, D, M>(
    a: &S,
    north_of_a: Option<&S>,
    b: &S,
    north_of_b: Option<&S>,
    decoder: &D,
    model: &M,
) where S: CellSource, D: Decoder<Raw = S::Raw>, M: ShadingModel<Handle = D::Handle>
    requires
        a.grid_width() == b.grid_width(),
        a.grid_height() == b.grid_height(),
    ensures
        composition_of(a, north_of_a, decoder, model).width == a.grid_width()
            * model.block_width(),
        composition_of(a, north_of_a, decoder, model).height == a.grid_height()
            * model.block_height(),
        composition_of(a, north_of_a, decoder, model).width == composition_of(
            b,
            north_of_b,
            decoder,
            model,
        ).width,
        composition_of(a, north_of_a, decoder, model).height == composition_of(
            b,
            north_of_b,
            decoder,
            model,
        ).height,
        composition_of(a, north_of_a, decoder, model).pixels.len() == composition_of(
            b,
            north_of_b,
            decoder,
            model,
        ).pixels.len(),
{
}

/// Two tiles decode to the same cells at every position.
pub open spec fn same_decoded_cells<S: CellSource, D: Decoder<Raw = S::Raw>>(
    a: &S,
    b: &S,
    decoder: &D,
) -> bool {
    forall|x: int, z: int| #[trigger] decoded_cell(a, decoder, x, z) == decoded_cell(b, decoder, x, z)
}

/// The neighbours of a tile depend on its decoded cells alone.
proof fn lemma_same_neighbors<S: CellSource, D: Decoder<Raw = S::Raw>>(
    a: &S,
    b: &S,
    north_region: Option<&S>,
    decoder: &D,
    x: int,
    z: int,
)
    requires
        same_decoded_cells(a, b, decoder),
    ensures
        north_neighbor(a, north_region, decoder, x, z) == north_neighbor(
            b,
            north_region,
            decoder,
            x,
            z,
        ),
    decreases z,
{
    if z > 0 {
        lemma_same_neighbors(a, b, north_region, decoder, x, z - 1);
    }
}

/// The image depends on the decoded cells alone: two tiles of the same size
/// that decode to the same cells compose to the same image. So a cell that
/// cannot be decoded is drawn as an absent cell is.
pub proof fn law_same_cells_same_image<S, D, M>(
    a: &S,
    b: &S,
    north_region: Option<&S>,
    decoder: &D,
    model: &M,
) where S: CellSource, D: Decoder<Raw = S::Raw>, M: ShadingModel<Handle = D::Handle>
    requires
        a.grid_width() == b.grid_width(),
        a.grid_height() == b.grid_height(),
        same_decoded_cells(a, b, decoder),
    ensures
        composition_of(a, north_region, decoder, model) == composition_of(
            b,
            north_region,
            decoder,
            model,
        ),
{
    let first = composition_of(a, north_region, decoder, model);
    let second = composition_of(b, north_region, decoder, model);
    assert forall|i: int| 0 <= i < first.pixels.len() implies first.pixels[i] == second.pixels[i] by {
        let px = i % (first.width as int);
        let pz = i / (first.width as int);
        let x = px / (model.block_width() as int);
        let z = pz / (model.block_height() as int);
        lemma_same_neighbors(a, b, north_region, decoder, x, z);
        assert(decoded_cell(a, decoder, x, z) == decoded_cell(b, decoder, x, z));
        assert(pixel_at(a, north_region, decoder, model, px, pz) == pixel_at(
            b,
            north_region,
            decoder,
            model,
            px,
            pz,
        ));
    }
    assert(first.pixels =~= second.pixels);
}

/// No cell of the tile is present.
pub open spec fn has_no_cells<S: CellSource>(region: &S) -> bool {
    forall|x: int, z: int|
        0 <= x < region.grid_width() && 0 <= z < region.grid_height() ==> #[trigger] region.cell_at(
            x as nat,
            z as nat,
        ) is Absent
}

/// No cell of the seeded columns of the north tile's last row is corrupt.
pub open spec fn seeds_cleanly<S: CellSource, D: Decoder<Raw = S::Raw>>(
    region: &S,
    north_region: Option<&S>,
    decoder: &D,
) -> bool {
    match north_region {
        Some(north) => forall|x: int|
            0 <= x < region.grid_width() ==> !#[trigger] is_corrupt(
                north,
                decoder,
                x,
                north.grid_height() - 1,
            ),
        None => true,
    }
}

/// A tile without decodable cells composes to a blank image, whatever lies
/// north of it.
pub proof fn law_nothing_decoded_blank_image<S, D, M>(
    region: &S,
    north_region: Option<&S>,
    decoder: &D,
    model: &M,
) where S: CellSource, D: Decoder<Raw = S::Raw>, M: ShadingModel<Handle = D::Handle>
    requires
        forall|x: int, z: int| #[trigger] decoded_cell(region, decoder, x, z) is None,
    ensures
        composition_of(region, north_region, decoder, model).is_blank(),
{
    let image = composition_of(region, north_region, decoder, model);
    assert forall|i: int| 0 <= i < image.pixels.len() implies image.pixels[i] == Rgba::clear() by {
        let px = i % (image.width as int);
        let pz = i / (image.width as int);
        let x = px / (model.block_width() as int);
        let z = pz / (model.block_height() as int);
        assert(decoded_cell(region, decoder, x, z) is None);
    }
}

/// A tile without corrupt cells in its first rows yields no failures there.
proof fn lemma_clean_rows<S: CellSource, D: Decoder<Raw = S::Raw>>(
    region: &S,
    decoder: &D,
    rows: int,
)
    requires
        forall|x: int, z: int| 0 <= z < rows ==> !is_corrupt(region, decoder, x, z),
    ensures
        failures_in_rows(region, decoder, rows) == Seq::<DecodeFailure>::empty(),
    decreases rows,
{
    if rows > 0 {
        lemma_clean_rows(region, decoder, rows - 1);
        lemma_clean_row(region, decoder, Tile::Current, rows - 1, region.grid_width() as int);
    }
}

/// A tile without present cells composes to a blank image, whatever lies
/// north of it, and none of its cells is named in the diagnostics.
pub proof fn law_no_cells_blank_image<S, D, M>(
    region: &S,
    north_region: Option<&S>,
    decoder: &D,
    model: &M,
) where S: CellSource, D: Decoder<Raw = S::Raw>, M: ShadingModel<Handle = D::Handle>
    requires
        has_no_cells(region),
    ensures
        composition_of(region, north_region, decoder, model).is_blank(),
        diagnostics_of(region, north_region, decoder) == seed_failures(
            north_region,
            decoder,
            region.grid_width() as int,
        ),
{
    assert forall|x: int, z: int| #[trigger] decoded_cell(region, decoder, x, z) is None by {
        if 0 <= x < region.grid_width() && 0 <= z < region.grid_height() {
            assert(region.cell_at(x as nat, z as nat) is Absent);
        }
    }
    law_nothing_decoded_blank_image(region, north_region, decoder, model);
    assert forall|x: int, z: int| !is_corrupt(region, decoder, x, z) by {
        if 0 <= x < region.grid_width() && 0 <= z < region.grid_height() {
            assert(region.cell_at(x as nat, z as nat) is Absent);
        }
    }
    lemma_clean_rows(region, decoder, region.grid_height() as int);
    assert(diagnostics_of(region, north_region, decoder) =~= seed_failures(
        north_region,
        decoder,
        region.grid_width() as int,
    ));
}

/// A tile without present cells yields no diagnostics where no cell of the
/// seeded columns of the north tile's last row is corrupt, and so wherever
/// there is no north tile.
pub proof fn law_no_cells_no_diagnostics<S: CellSource, D: Decoder<Raw = S::Raw>>(
    region: &S,
    north_region: Option<&S>,
    decoder: &D,
)
    requires
        has_no_cells(region),
        seeds_cleanly(region, north_region, decoder),
    ensures
        diagnostics_of(region, north_region, decoder) == Seq::<DecodeFailure>::empty(),
{
    assert forall|x: int, z: int| !is_corrupt(region, decoder, x, z) by {
        if 0 <= x < region.grid_width() && 0 <= z < region.grid_height() {
            assert(region.cell_at(x as nat, z as nat) is Absent);
        }
    }
    lemma_clean_rows(region, decoder, region.grid_height() as int);
    match north_region {
        Some(north) => {
            let columns = if region.grid_width() <= north.grid_width() {
                region.grid_width() as int
            } else {
                north.grid_width() as int
            };
            lemma_clean_row(north, decoder, Tile::North, north.grid_height() - 1, columns);
        },
        None => {},
    }
    assert(diagnostics_of(region, north_region, decoder) =~= Seq::<DecodeFailure>::empty());
}

/// The grid's dimensions are numbers that a program can hold, as those of
/// every tile that is handed to the compositor are.
pub open spec fn countable<S: CellSource>(region: &S) -> bool {
    region.grid_width() <= usize::MAX && region.grid_height() <= usize::MAX
}

/// `failure` names a corrupt cell that the scan meets: one of the current
/// tile, or one of the north tile's last row in a column that is seeded.
pub open spec fn names_corrupt_cell<S: CellSource, D: Decoder<Raw = S::Raw>>(
    failure: DecodeFailure,
    region: &S,
    north_region: Option<&S>,
    decoder: &D,
) -> bool {
    match failure.tile {
        Tile::Current => is_corrupt(region, decoder, failure.x as int, failure.z as int),
        Tile::North => {
            &&& north_region matches Some(north) && failure.z == north.grid_height() - 1
                && is_corrupt(north, decoder, failure.x as int, failure.z as int)
            &&& failure.x < region.grid_width()
        },
    }
}

/// The failures of a row are its corrupt cells, each once.
proof fn lemma_row_failures<S: CellSource, D: Decoder<Raw = S::Raw>>(
    region: &S,
    decoder: &D,
    tile: Tile,
    z: int,
    n: int,
)
    requires
        0 <= z <= usize::MAX,
        n <= usize::MAX + 1,
    ensures
        forall|d: DecodeFailure| #[trigger]
            failures_in_row(region, decoder, tile, z, n).contains(d) <==> (d.tile == tile && d.z
                == z && d.x < n && is_corrupt(region, decoder, d.x as int, z)),
        failures_in_row(region, decoder, tile, z, n).no_duplicates(),
    decreases n,
{
    if n > 0 {
        lemma_row_failures(region, decoder, tile, z, n - 1);
        let before = failures_in_row(region, decoder, tile, z, n - 1);
        if is_corrupt(region, decoder, n - 1, z) {
            let last = DecodeFailure { tile, x: (n - 1) as usize, z: z as usize };
            assert forall|d: DecodeFailure| #[trigger]
                before.push(last).contains(d) <==> (d.tile == tile && d.z == z && d.x < n
                    && is_corrupt(region, decoder, d.x as int, z)) by {
                lemma_seq_contains_after_push(before, last, d);
            }
            assert(!before.contains(last));
            assert forall|i: int, j: int|
                0 <= i < before.len() + 1 && 0 <= j < before.len() + 1 && i != j implies before.push(
                last,
            )[i] != before.push(last)[j] by {
                if i < before.len() {
                    assert(before.contains(before[i]));
                }
                if j < before.len() {
                    assert(before.contains(before[j]));
                }
            }
        }
    }
}

/// The failures of the first rows of a tile are the corrupt cells of those
/// rows, each once.
proof fn lemma_rows_failures<S: CellSource, D: Decoder<Raw = S::Raw>>(
    region: &S,
    decoder: &D,
    rows: int,
)
    requires
        rows <= usize::MAX + 1,
        region.grid_width() <= usize::MAX,
    ensures
        forall|d: DecodeFailure| #[trigger]
            failures_in_rows(region, decoder, rows).contains(d) <==> (d.tile == Tile::Current
                && d.z < rows && is_corrupt(region, decoder, d.x as int, d.z as int)),
        failures_in_rows(region, decoder, rows).no_duplicates(),
    decreases rows,
{
    if rows > 0 {
        lemma_rows_failures(region, decoder, rows - 1);
        let above = failures_in_rows(region, decoder, rows - 1);
        let row = failures_in_row(
            region,
            decoder,
            Tile::Current,
            rows - 1,
            region.grid_width() as int,
        );
        lemma_row_failures(region, decoder, Tile::Current, rows - 1, region.grid_width() as int);
        assert forall|d: DecodeFailure| #[trigger]
            (above + row).contains(d) <==> (d.tile == Tile::Current && d.z < rows && is_corrupt(
                region,
                decoder,
                d.x as int,
                d.z as int,
            )) by {
            lemma_seq_concat_contains_all_elements(above, row, d);
        }
        assert forall|i: int, j: int| 0 <= i < above.len() && 0 <= j < row.len() implies above[i]
            != row[j] by {
            assert(above.contains(above[i]));
            assert(row.contains(row[j]));
        }
        lemma_no_dup_in_concat(above, row);
    }
}

/// The failures met while seeding are the corrupt cells of the seeded
/// columns of the north tile's last row, each once.
proof fn lemma_seed_failures<S: CellSource, D: Decoder<Raw = S::Raw>>(
    region: &S,
    north_region: Option<&S>,
    decoder: &D,
)
    requires
        countable(region),
        north_region matches Some(north) ==> countable(north),
    ensures
        forall|d: DecodeFailure| #[trigger]
            seed_failures(north_region, decoder, region.grid_width() as int).contains(d) <==> (
            d.tile == Tile::North && names_corrupt_cell(d, region, north_region, decoder)),
        seed_failures(north_region, decoder, region.grid_width() as int).no_duplicates(),
{
    match north_region {
        Some(north) => {
            let columns = if region.grid_width() <= north.grid_width() {
                region.grid_width() as int
            } else {
                north.grid_width() as int
            };
            if north.grid_height() > 0 {
                lemma_row_failures(north, decoder, Tile::North, north.grid_height() - 1, columns);
            } else {
                lemma_clean_row(north, decoder, Tile::North, -1, columns);
            }
        },
        None => {},
    }
}

/// The diagnostics name the corrupt cells that the scan meets, and no other
/// cell.
pub proof fn law_diagnostics_name_corrupt_cells<S: CellSource, D: Decoder<Raw = S::Raw>>(
    region: &S,
    north_region: Option<&S>,
    decoder: &D,
    failure: DecodeFailure,
)
    requires
        countable(region),
        north_region matches Some(north) ==> countable(north),
    ensures
        diagnostics_of(region, north_region, decoder).contains(failure) <==> names_corrupt_cell(
            failure,
            region,
            north_region,
            decoder,
        ),
{
    lemma_seed_failures(region, north_region, decoder);
    lemma_rows_failures(region, decoder, region.grid_height() as int);
    lemma_seq_concat_contains_all_elements(
        seed_failures(north_region, decoder, region.grid_width() as int),
        failures_in_rows(region, decoder, region.grid_height() as int),
        failure,
    );
}

/// No cell is named twice in the diagnostics.
pub proof fn law_diagnostics_distinct<S: CellSource, D: Decoder<Raw = S::Raw>>(
    region: &S,
    north_region: Option<&S>,
    decoder: &D,
)
    requires
        countable(region),
        north_region matches Some(north) ==> countable(north),
    ensures
        diagnostics_of(region, north_region, decoder).no_duplicates(),
{
    let seeds = seed_failures(north_region, decoder, region.grid_width() as int);
    let rows = failures_in_rows(region, decoder, region.grid_height() as int);
    lemma_seed_failures(region, north_region, decoder);
    lemma_rows_failures(region, decoder, region.grid_height() as int);
    assert forall|i: int, j: int| 0 <= i < seeds.len() && 0 <= j < rows.len() implies seeds[i]
        != rows[j] by {
        assert(seeds.contains(seeds[i]));
        assert(rows.contains(rows[j]));
    }
    lemma_no_dup_in_concat(seeds, rows);
}

/// Holds of every failure but `entry`.
pub open spec fn other_than(entry: DecodeFailure) -> spec_fn(DecodeFailure) -> bool {
    |d: DecodeFailure| d != entry
}

/// Where row `z` of `b` has the corrupt cells of row `z` of `a` but for the
/// cell that `entry` names, its failures are those of `a` without `entry`.
proof fn lemma_row_without<S: CellSource, D: Decoder<Raw = S::Raw>>(
    a: &S,
    b: &S,
    decoder: &D,
    tile: Tile,
    z: int,
    n: int,
    entry: DecodeFailure,
)
    requires
        forall|c: int|
            0 <= c < n ==> (#[trigger] is_corrupt(b, decoder, c, z) <==> is_corrupt(
                a,
                decoder,
                c,
                z,
            ) && DecodeFailure { tile, x: c as usize, z: z as usize } != entry),
    ensures
        failures_in_row(a, decoder, tile, z, n).filter(other_than(entry)) == failures_in_row(
            b,
            decoder,
            tile,
            z,
            n,
        ),
    decreases n,
{
    if n > 0 {
        lemma_row_without(a, b, decoder, tile, z, n - 1, entry);
        assert(is_corrupt(b, decoder, n - 1, z) <==> is_corrupt(a, decoder, n - 1, z)
            && DecodeFailure { tile, x: (n - 1) as usize, z: z as usize } != entry);
        if is_corrupt(a, decoder, n - 1, z) {
            failures_in_row(a, decoder, tile, z, n - 1).lemma_filter_push(
                DecodeFailure { tile, x: (n - 1) as usize, z: z as usize },
                other_than(entry),
            );
        }
    } else {
        reveal(Seq::filter);
    }
}

/// Where `b` has the corrupt cells of `a` but for the cell that `entry`
/// names, the failures of its rows are those of `a` without `entry`.
proof fn lemma_rows_without<S: CellSource, D: Decoder<Raw = S::Raw>>(
    a: &S,
    b: &S,
    decoder: &D,
    rows: int,
    entry: DecodeFailure,
)
    requires
        a.grid_width() == b.grid_width(),
        forall|c: int, r: int|
            0 <= r < rows ==> (#[trigger] is_corrupt(b, decoder, c, r) <==> is_corrupt(
                a,
                decoder,
                c,
                r,
            ) && DecodeFailure { tile: Tile::Current, x: c as usize, z: r as usize } != entry),
    ensures
        failures_in_rows(a, decoder, rows).filter(other_than(entry)) == failures_in_rows(
            b,
            decoder,
            rows,
        ),
    decreases rows,
{
    if rows > 0 {
        lemma_rows_without(a, b, decoder, rows - 1, entry);
        lemma_row_without(
            a,
            b,
            decoder,
            Tile::Current,
            rows - 1,
            a.grid_width() as int,
            entry,
        );
        Seq::filter_distributes_over_add(
            failures_in_rows(a, decoder, rows - 1),
            failures_in_row(a, decoder, Tile::Current, rows - 1, a.grid_width() as int),
            other_than(entry),
        );
    } else {
        reveal(Seq::filter);
    }
}

/// A corrupt cell is drawn as an absent cell is, and is named once in the
/// diagnostics. Of two tiles that differ in one cell alone, corrupt in the
/// first and absent in the second, the images are the same, and the
/// diagnostics of the first are those of the second with one more entry,
/// which names that cell.
pub proof fn law_corrupt_cell_like_absent<S, D, M>(
    corrupt: &S,
    absent: &S,
    north_region: Option<&S>,
    decoder: &D,
    model: &M,
    x: int,
    z: int,
) where S: CellSource, D: Decoder<Raw = S::Raw>, M: ShadingModel<Handle = D::Handle>
    requires
        countable(corrupt),
        north_region matches Some(north) ==> countable(north),
        corrupt.grid_width() == absent.grid_width(),
        corrupt.grid_height() == absent.grid_height(),
        is_corrupt(corrupt, decoder, x, z),
        absent.cell_at(x as nat, z as nat) is Absent,
        forall|cx: int, cz: int|
            0 <= cx < corrupt.grid_width() && 0 <= cz < corrupt.grid_height() && (cx != x || cz
                != z) ==> #[trigger] corrupt.cell_at(cx as nat, cz as nat) == absent.cell_at(
                cx as nat,
                cz as nat,
            ),
    ensures
        composition_of(corrupt, north_region, decoder, model) == composition_of(
            absent,
            north_region,
            decoder,
            model,
        ),
        diagnostics_of(corrupt, north_region, decoder).filter(
            other_than(DecodeFailure { tile: Tile::Current, x: x as usize, z: z as usize }),
        ) == diagnostics_of(absent, north_region, decoder),
        diagnostics_of(corrupt, north_region, decoder).to_multiset().count(
            DecodeFailure { tile: Tile::Current, x: x as usize, z: z as usize },
        ) == 1,
{
    let entry = DecodeFailure { tile: Tile::Current, x: x as usize, z: z as usize };
    let width = corrupt.grid_width() as int;
    let height = corrupt.grid_height() as int;
    assert forall|cx: int, cz: int| #[trigger]
        decoded_cell(corrupt, decoder, cx, cz) == decoded_cell(absent, decoder, cx, cz) by {
        if 0 <= cx < width && 0 <= cz < height && (cx != x || cz != z) {
            assert(corrupt.cell_at(cx as nat, cz as nat) == absent.cell_at(cx as nat, cz as nat));
        }
    }
    law_same_cells_same_image(corrupt, absent, north_region, decoder, model);

    assert forall|c: int, r: int| 0 <= r < height implies (#[trigger] is_corrupt(
        absent,
        decoder,
        c,
        r,
    ) <==> is_corrupt(corrupt, decoder, c, r) && DecodeFailure {
        tile: Tile::Current,
        x: c as usize,
        z: r as usize,
    } != entry) by {
        if 0 <= c < width && (c != x || r != z) {
            assert(corrupt.cell_at(c as nat, r as nat) == absent.cell_at(c as nat, r as nat));
        }
    }
    lemma_rows_without(corrupt, absent, decoder, height, entry);
    let seeds = seed_failures(north_region, decoder, width);
    match north_region {
        Some(north) => {
            let columns = if width <= north.grid_width() {
                width
            } else {
                north.grid_width() as int
            };
            lemma_row_without(
                north,
                north,
                decoder,
                Tile::North,
                north.grid_height() - 1,
                columns,
                entry,
            );
        },
        None => {
            reveal(Seq::filter);
        },
    }
    assert(seeds.filter(other_than(entry)) == seeds);
    Seq::filter_distributes_over_add(
        seeds,
        failures_in_rows(corrupt, decoder, height),
        other_than(entry),
    );

    let found = diagnostics_of(corrupt, north_region, decoder);
    law_diagnostics_name_corrupt_cells(corrupt, north_region, decoder, entry);
    law_diagnostics_distinct(corrupt, north_region, decoder);
    to_multiset_contains(found, entry);
    found.lemma_multiset_has_no_duplicates();
}

} // verus!
