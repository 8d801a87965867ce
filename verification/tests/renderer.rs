use image::GenericImageView;
use region_render::cell::{Cell, CellSource, DecodeError, Decoder, ShadingModel};
use region_render::compositor::{render_region, ConfigurationError, DecodeFailure, Tile};
use region_render::pixel::Rgba;
use region_render::renderer::{finish_render, RenderError, TileRenderer};

/// A grid of raw cells: `0` is an absent cell, `255` a corrupt one.
struct Grid {
    width: usize,
    height: usize,
    cells: Vec<u8>,
}

impl CellSource for Grid {
    type Raw = u8;

    fn width(&self) -> usize {
        self.width
    }

    fn height(&self) -> usize {
        self.height
    }

    fn fetch(&self, x: usize, z: usize) -> Cell<u8> {
        match self.cells[z * self.width + x] {
            0 => Cell::Absent,
            raw => Cell::Present(raw),
        }
    }
}

struct Ids;

impl Decoder for Ids {
    type Raw = u8;
    type Handle = u8;

    fn decode(&self, raw: u8) -> Result<u8, DecodeError> {
        if raw == 255 {
            Err(DecodeError {})
        } else {
            Ok(raw)
        }
    }
}

/// Shades a cell into a block of one colour that records the cell and its
/// neighbour.
struct Plain {
    width: usize,
    height: usize,
}

impl ShadingModel for Plain {
    type Handle = u8;

    fn cell_pixel_width(&self) -> usize {
        self.width
    }

    fn cell_pixel_height(&self) -> usize {
        self.height
    }

    fn render(&self, cell: &u8, north: Option<&u8>) -> Vec<Rgba> {
        vec![Rgba { r: *cell, g: north.copied().unwrap_or(0), b: 77, a: 255 }; self.width * self.height]
    }
}

#[test]
fn renderer_keeps_its_collaborators() {
    let renderer = TileRenderer::new(Ids, Plain { width: 16, height: 8 });
    assert_eq!(renderer.model.width, 16);
    assert_eq!(renderer.model.height, 8);
}

#[test]
fn rendered_png_decodes_to_the_composition() {
    let region = Grid { width: 2, height: 2, cells: vec![1, 0, 255, 4] };
    let north = Grid { width: 2, height: 2, cells: vec![0, 0, 9, 8] };
    let renderer = TileRenderer::new(Ids, Plain { width: 3, height: 2 });
    let rendered = renderer.render(&region, Some(&north)).unwrap();

    assert_eq!(&rendered.png[..8], &[137, 80, 78, 71, 13, 10, 26, 10]);
    let composite = render_region(&region, Some(&north), &Ids, &Plain { width: 3, height: 2 }).unwrap();
    let raw = composite.image.to_bytes();
    assert_ne!(rendered.png, raw);

    let decoded = image::load_from_memory(&rendered.png).unwrap();
    assert_eq!(decoded.dimensions(), (6, 4));
    assert_eq!(decoded.to_rgba8().into_raw(), raw);
    assert_eq!(&raw[..4], &[1, 9, 77, 255]);
    assert_eq!(&raw[12..16], &[0, 0, 0, 0]);
    assert_eq!(rendered.diagnostics, vec![DecodeFailure { tile: Tile::Current, x: 0, z: 1 }]);
}

#[test]
fn rendering_without_north_tile() {
    let region = Grid { width: 1, height: 2, cells: vec![3, 5] };
    let renderer = TileRenderer::new(Ids, Plain { width: 1, height: 1 });
    let rendered = renderer.render(&region, None).unwrap();
    let decoded = image::load_from_memory(&rendered.png).unwrap();
    assert_eq!(decoded.dimensions(), (1, 2));
    assert_eq!(decoded.to_rgba8().into_raw(), vec![3, 0, 77, 255, 5, 3, 77, 255]);
    assert!(rendered.diagnostics.is_empty());
}

#[test]
fn rendering_twice_gives_the_same_file() {
    let region = Grid { width: 2, height: 1, cells: vec![3, 5] };
    let renderer = TileRenderer::new(Ids, Plain { width: 4, height: 4 });
    let first = renderer.render(&region, None).unwrap();
    let second = renderer.render(&region, None).unwrap();
    assert_eq!(first.png, second.png);
}

#[test]
fn mismatched_grids_are_a_configuration_error() {
    let region = Grid { width: 1, height: 2, cells: vec![3, 5] };
    let north = Grid { width: 2, height: 1, cells: vec![3, 5] };
    let renderer = TileRenderer::new(Ids, Plain { width: 1, height: 1 });
    assert!(matches!(
        renderer.render(&region, Some(&north)),
        Err(RenderError::Configuration(ConfigurationError::GridMismatch))
    ));
}

#[test]
fn uncountable_image_is_a_configuration_error() {
    let region = Grid { width: usize::MAX, height: 1, cells: Vec::new() };
    let renderer = TileRenderer::new(Ids, Plain { width: 2, height: 1 });
    assert!(matches!(
        renderer.render(&region, None),
        Err(RenderError::Configuration(ConfigurationError::ImageTooLarge))
    ));
}

#[test]
fn image_wider_than_a_png_is_oversized() {
    let region = Grid { width: 1, height: 0, cells: Vec::new() };
    let wide = TileRenderer::new(Ids, Plain { width: u32::MAX as usize + 1, height: 1 });
    assert!(matches!(wide.render(&region, None), Err(RenderError::Oversized)));
    let region = Grid { width: 0, height: 1, cells: Vec::new() };
    let tall = TileRenderer::new(Ids, Plain { width: 1, height: u32::MAX as usize + 1 });
    assert!(matches!(tall.render(&region, None), Err(RenderError::Oversized)));
}

#[test]
fn empty_image_is_refused_by_the_encoder() {
    let region = Grid { width: 0, height: 3, cells: Vec::new() };
    let renderer = TileRenderer::new(Ids, Plain { width: 1, height: 1 });
    assert!(matches!(renderer.render(&region, None), Err(RenderError::Encoding)));
    let flat = Grid { width: 2, height: 2, cells: vec![1, 2, 3, 4] };
    let no_rows = TileRenderer::new(Ids, Plain { width: 1, height: 0 });
    assert!(matches!(no_rows.render(&flat, None), Err(RenderError::Encoding)));
}

#[test]
fn finishing_keeps_file_and_diagnostics() {
    let failures = vec![DecodeFailure { tile: Tile::North, x: 3, z: 31 }];
    let done = finish_render(Ok(vec![1, 2, 3]), failures.clone()).unwrap();
    assert_eq!(done.png, vec![1, 2, 3]);
    assert_eq!(done.diagnostics, failures);
}

#[test]
fn finishing_maps_the_encoder_error() {
    let refused = image::ImageError::IoError(std::io::Error::new(
        std::io::ErrorKind::Other,
        "refused",
    ));
    assert!(matches!(finish_render(Err(refused), Vec::new()), Err(RenderError::Encoding)));
}

#[test]
fn region_of_chunks_renders_to_512_by_512() {
    let mut cells = vec![0u8; 32 * 32];
    cells[0] = 1;
    cells[32] = 2;
    cells[31 * 32 + 31] = 3;
    let region = Grid { width: 32, height: 32, cells };
    let renderer = TileRenderer::new(Ids, Plain { width: 16, height: 16 });
    let rendered = renderer.render(&region, None).unwrap();
    let decoded = image::load_from_memory(&rendered.png).unwrap().to_rgba8();
    assert_eq!(decoded.dimensions(), (512, 512));
    assert_eq!(decoded.get_pixel(0, 0).0, [1, 0, 77, 255]);
    assert_eq!(decoded.get_pixel(15, 15).0, [1, 0, 77, 255]);
    assert_eq!(decoded.get_pixel(16, 0).0, [0, 0, 0, 0]);
    assert_eq!(decoded.get_pixel(0, 16).0, [2, 1, 77, 255]);
    assert_eq!(decoded.get_pixel(15, 31).0, [2, 1, 77, 255]);
    assert_eq!(decoded.get_pixel(0, 32).0, [0, 0, 0, 0]);
    assert_eq!(decoded.get_pixel(511, 511).0, [3, 0, 77, 255]);
    assert_eq!(decoded.get_pixel(495, 496).0, [0, 0, 0, 0]);
    assert!(rendered.diagnostics.is_empty());
}
