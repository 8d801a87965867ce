use region_render::cell::{Cell, CellSource, DecodeError, Decoder, ShadingModel};
use region_render::compositor::{
    render_region, seed_cache, ConfigurationError, DecodeFailure, Tile,
};
use region_render::pixel::Rgba;

/// A grid of raw cells: `0` is an absent cell, `255` a corrupt one.
struct Grid {
    width: usize,
    height: usize,
    cells: Vec<u8>,
}

impl Grid {
    fn new(width: usize, height: usize, cells: &[u8]) -> Grid {
        assert_eq!(cells.len(), width * height);
        Grid { width, height, cells: cells.to_vec() }
    }
}

impl CellSource for Grid {
    type Raw = u8;

    fn width(&self) -> usize {
        self.width
    }

    fn height(&self) -> usize {
        self.height
    }

    fn fetch(&self, x: usize, z: usize) -> Cell<u8> {
        match self.cells[z * self.width + x] {
            0 => Cell::Absent,
            raw => Cell::Present(raw),
        }
    }
}

struct Ids;

impl Decoder for Ids {
    type Raw = u8;
    type Handle = u8;

    fn decode(&self, raw: u8) -> Result<u8, DecodeError> {
        if raw == 255 {
            Err(DecodeError {})
        } else {
            Ok(raw)
        }
    }
}

/// Shades a cell into a block that records the cell, its neighbour and the
/// position of each sample in the block.
struct Recorder {
    width: usize,
    height: usize,
}

impl ShadingModel for Recorder {
    type Handle = u8;

    fn cell_pixel_width(&self) -> usize {
        self.width
    }

    fn cell_pixel_height(&self) -> usize {
        self.height
    }

    fn render(&self, cell: &u8, north: Option<&u8>) -> Vec<Rgba> {
        let mut block = Vec::new();
        for i in 0..self.width * self.height {
            block.push(shade(*cell, north.copied(), i));
        }
        block
    }
}

fn shade(cell: u8, north: Option<u8>, i: usize) -> Rgba {
    Rgba { r: cell, g: north.unwrap_or(0), b: north.is_some() as u8, a: 100 + i as u8 }
}

const CLEAR: Rgba = Rgba { r: 0, g: 0, b: 0, a: 0 };

#[test]
fn absent_cell_gives_no_neighbor_to_the_cell_below() {
    let a = 1;
    let b = 2;
    let c = 3;
    let region = Grid::new(2, 2, &[a, 0, b, c]);
    let out = render_region(&region, None, &Ids, &Recorder { width: 2, height: 2 }).unwrap();
    let image = out.image;
    assert_eq!(image.width(), 4);
    assert_eq!(image.height(), 4);
    for lz in 0..2 {
        for lx in 0..2 {
            let i = lz * 2 + lx;
            assert_eq!(image.pixel(lx, lz), Some(shade(a, None, i)));
            assert_eq!(image.pixel(2 + lx, lz), Some(CLEAR));
            assert_eq!(image.pixel(lx, 2 + lz), Some(shade(b, Some(a), i)));
            assert_eq!(image.pixel(2 + lx, 2 + lz), Some(shade(c, None, i)));
        }
    }
    assert!(out.diagnostics.is_empty());
}

#[test]
fn mismatched_north_grid_is_refused() {
    let region = Grid::new(2, 1, &[1, 2]);
    let north = Grid::new(1, 2, &[1, 2]);
    let r = render_region(&region, Some(&north), &Ids, &Recorder { width: 1, height: 1 });
    assert!(matches!(r, Err(ConfigurationError::GridMismatch)));
}

#[test]
fn corrupt_cell_is_reported_and_left_blank() {
    let region = Grid::new(2, 1, &[255, 7]);
    let out = render_region(&region, None, &Ids, &Recorder { width: 1, height: 1 }).unwrap();
    assert_eq!(out.image.pixel(0, 0), Some(CLEAR));
    assert_eq!(out.image.pixel(1, 0), Some(shade(7, None, 0)));
    assert_eq!(out.diagnostics, vec![DecodeFailure { tile: Tile::Current, x: 0, z: 0 }]);
}

#[test]
fn grid_without_cells_gives_blank_image_and_no_diagnostics() {
    let region = Grid::new(3, 2, &[0, 0, 0, 0, 0, 0]);
    let out = render_region(&region, None, &Ids, &Recorder { width: 2, height: 3 }).unwrap();
    assert_eq!(out.image.width(), 6);
    assert_eq!(out.image.height(), 6);
    assert_eq!(out.image.to_bytes(), vec![0u8; 6 * 6 * 4]);
    assert!(out.diagnostics.is_empty());
}

#[test]
fn grid_without_cells_stays_blank_under_a_north_tile() {
    let region = Grid::new(2, 2, &[0, 0, 0, 0]);
    let north = Grid::new(2, 2, &[1, 2, 3, 4]);
    let out = render_region(&region, Some(&north), &Ids, &Recorder { width: 1, height: 1 }).unwrap();
    assert_eq!(out.image.to_bytes(), vec![0u8; 2 * 2 * 4]);
    assert!(out.diagnostics.is_empty());
}

#[test]
fn without_north_tile_first_row_has_no_neighbor() {
    let region = Grid::new(3, 1, &[4, 5, 6]);
    let out = render_region(&region, None, &Ids, &Recorder { width: 1, height: 1 }).unwrap();
    assert_eq!(out.image.pixel(0, 0), Some(shade(4, None, 0)));
    assert_eq!(out.image.pixel(1, 0), Some(shade(5, None, 0)));
    assert_eq!(out.image.pixel(2, 0), Some(shade(6, None, 0)));
}

#[test]
fn seeding_without_north_tile_knows_no_neighbor() {
    let (cache, failures) = seed_cache(None::<&Grid>, &Ids, 4);
    assert_eq!(cache.width(), 4);
    for x in 0..4 {
        assert_eq!(cache.neighbor(x), None);
    }
    assert!(failures.is_empty());
}

#[test]
fn seeding_takes_the_last_row_of_the_north_tile() {
    let north = Grid::new(3, 2, &[1, 2, 3, 7, 0, 255]);
    let (cache, failures) = seed_cache(Some(&north), &Ids, 3);
    assert_eq!(cache.neighbor(0), Some(&7));
    assert_eq!(cache.neighbor(1), None);
    assert_eq!(cache.neighbor(2), None);
    assert_eq!(failures, vec![DecodeFailure { tile: Tile::North, x: 2, z: 1 }]);
}

#[test]
fn seeding_stops_at_the_narrower_width() {
    let north = Grid::new(2, 1, &[8, 9]);
    let (wide, _) = seed_cache(Some(&north), &Ids, 3);
    assert_eq!(wide.width(), 3);
    assert_eq!(wide.neighbor(1), Some(&9));
    assert_eq!(wide.neighbor(2), None);
    let (narrow, _) = seed_cache(Some(&north), &Ids, 1);
    assert_eq!(narrow.width(), 1);
    assert_eq!(narrow.neighbor(0), Some(&8));
}

#[test]
fn first_row_is_shaded_against_the_north_tile() {
    let region = Grid::new(2, 2, &[5, 6, 0, 0]);
    let north = Grid::new(2, 2, &[1, 2, 3, 0]);
    let out = render_region(&region, Some(&north), &Ids, &Recorder { width: 1, height: 1 }).unwrap();
    assert_eq!(out.image.pixel(0, 0), Some(shade(5, Some(3), 0)));
    assert_eq!(out.image.pixel(1, 0), Some(shade(6, None, 0)));
    assert!(out.diagnostics.is_empty());
}

#[test]
fn single_cell_tile_with_north_neighbor() {
    let region = Grid::new(1, 1, &[9]);
    let north = Grid::new(1, 1, &[4]);
    let out = render_region(&region, Some(&north), &Ids, &Recorder { width: 2, height: 2 }).unwrap();
    assert_eq!(out.image.width(), 2);
    assert_eq!(out.image.height(), 2);
    let mut expected = Vec::new();
    for i in 0..4 {
        let p = shade(9, Some(4), i);
        expected.extend_from_slice(&[p.r, p.g, p.b, p.a]);
    }
    assert_eq!(out.image.to_bytes(), expected);
    assert!(out.diagnostics.is_empty());
}

#[test]
fn composing_twice_gives_the_same_bytes() {
    let region = Grid::new(2, 3, &[1, 0, 255, 4, 5, 6]);
    let north = Grid::new(2, 3, &[0, 0, 0, 0, 7, 255]);
    let model = Recorder { width: 3, height: 2 };
    let first = render_region(&region, Some(&north), &Ids, &model).unwrap();
    let second = render_region(&region, Some(&north), &Ids, &model).unwrap();
    assert_eq!(first.image.to_bytes(), second.image.to_bytes());
    assert_eq!(first.diagnostics, second.diagnostics);
}

#[test]
fn corrupt_cell_is_drawn_as_an_absent_cell() {
    let model = Recorder { width: 2, height: 1 };
    let corrupt = Grid::new(2, 2, &[1, 255, 3, 4]);
    let absent = Grid::new(2, 2, &[1, 0, 3, 4]);
    let a = render_region(&corrupt, None, &Ids, &model).unwrap();
    let b = render_region(&absent, None, &Ids, &model).unwrap();
    assert_eq!(a.image.to_bytes(), b.image.to_bytes());
    assert_eq!(a.image.pixel(2, 0), Some(CLEAR));
    assert_eq!(a.image.pixel(3, 0), Some(CLEAR));
    assert_eq!(a.image.pixel(2, 1), Some(shade(4, None, 0)));
    assert_eq!(a.diagnostics, vec![DecodeFailure { tile: Tile::Current, x: 1, z: 0 }]);
    assert!(b.diagnostics.is_empty());
}

#[test]
fn absent_and_corrupt_cells_leave_the_neighbor_as_it_was() {
    let region = Grid::new(2, 4, &[1, 2, 0, 255, 0, 255, 5, 6]);
    let out = render_region(&region, None, &Ids, &Recorder { width: 1, height: 1 }).unwrap();
    assert_eq!(out.image.pixel(0, 3), Some(shade(5, Some(1), 0)));
    assert_eq!(out.image.pixel(1, 3), Some(shade(6, Some(2), 0)));
    assert_eq!(
        out.diagnostics,
        vec![
            DecodeFailure { tile: Tile::Current, x: 1, z: 1 },
            DecodeFailure { tile: Tile::Current, x: 1, z: 2 },
        ]
    );
}

#[test]
fn north_seed_outlives_absent_rows() {
    let region = Grid::new(1, 3, &[0, 0, 9]);
    let north = Grid::new(1, 3, &[1, 2, 3]);
    let out = render_region(&region, Some(&north), &Ids, &Recorder { width: 1, height: 1 }).unwrap();
    assert_eq!(out.image.pixel(0, 2), Some(shade(9, Some(3), 0)));
}

#[test]
fn diagnostics_follow_the_scan_with_the_north_tile_first() {
    let region = Grid::new(2, 2, &[255, 1, 2, 255]);
    let north = Grid::new(2, 2, &[255, 255, 0, 255]);
    let out = render_region(&region, Some(&north), &Ids, &Recorder { width: 1, height: 1 }).unwrap();
    assert_eq!(
        out.diagnostics,
        vec![
            DecodeFailure { tile: Tile::North, x: 1, z: 1 },
            DecodeFailure { tile: Tile::Current, x: 0, z: 0 },
            DecodeFailure { tile: Tile::Current, x: 1, z: 1 },
        ]
    );
    assert_eq!(out.image.pixel(1, 0), Some(shade(1, None, 0)));
    assert_eq!(out.image.pixel(0, 1), Some(shade(2, None, 0)));
}

#[test]
fn blocks_are_placed_row_major() {
    let region = Grid::new(2, 1, &[1, 2]);
    let out = render_region(&region, None, &Ids, &Recorder { width: 2, height: 2 }).unwrap();
    assert_eq!(out.image.width(), 4);
    assert_eq!(out.image.height(), 2);
    assert_eq!(out.image.pixel(0, 0), Some(shade(1, None, 0)));
    assert_eq!(out.image.pixel(1, 0), Some(shade(1, None, 1)));
    assert_eq!(out.image.pixel(2, 0), Some(shade(2, None, 0)));
    assert_eq!(out.image.pixel(3, 0), Some(shade(2, None, 1)));
    assert_eq!(out.image.pixel(0, 1), Some(shade(1, None, 2)));
    assert_eq!(out.image.pixel(1, 1), Some(shade(1, None, 3)));
    assert_eq!(out.image.pixel(2, 1), Some(shade(2, None, 2)));
    assert_eq!(out.image.pixel(3, 1), Some(shade(2, None, 3)));
    assert_eq!(out.image.pixel(4, 0), None);
    assert_eq!(out.image.pixel(0, 2), None);
}

#[test]
fn empty_grid_gives_empty_image() {
    let region = Grid::new(0, 0, &[]);
    let out = render_region(&region, None, &Ids, &Recorder { width: 16, height: 16 }).unwrap();
    assert_eq!(out.image.width(), 0);
    assert_eq!(out.image.height(), 0);
    assert!(out.image.to_bytes().is_empty());
    assert!(out.diagnostics.is_empty());
}

/// A grid that claims a size and holds nothing.
struct Vast {
    width: usize,
    height: usize,
}

impl CellSource for Vast {
    type Raw = u8;

    fn width(&self) -> usize {
        self.width
    }

    fn height(&self) -> usize {
        self.height
    }

    fn fetch(&self, _x: usize, _z: usize) -> Cell<u8> {
        Cell::Absent
    }
}

#[test]
fn image_that_cannot_be_counted_is_refused() {
    let model = Recorder { width: 2, height: 1 };
    let wide = Vast { width: usize::MAX, height: 1 };
    assert!(matches!(
        render_region(&wide, None, &Ids, &model),
        Err(ConfigurationError::ImageTooLarge)
    ));
    let tall = Vast { width: 1, height: usize::MAX };
    assert!(matches!(
        render_region(&tall, None, &Ids, &Recorder { width: 1, height: 2 }),
        Err(ConfigurationError::ImageTooLarge)
    ));
    let both = Vast { width: usize::MAX / 2, height: 3 };
    assert!(matches!(
        render_region(&both, None, &Ids, &Recorder { width: 1, height: 1 }),
        Err(ConfigurationError::ImageTooLarge)
    ));
}

#[test]
fn mismatch_is_reported_before_size() {
    let region = Vast { width: usize::MAX, height: 1 };
    let north = Vast { width: usize::MAX, height: 2 };
    assert!(matches!(
        render_region(&region, Some(&north), &Ids, &Recorder { width: 2, height: 2 }),
        Err(ConfigurationError::GridMismatch)
    ));
}
