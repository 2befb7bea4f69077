use rand::rngs::StdRng;
use rand::SeedableRng;
use wave_function::algorithm::WaveFunctionFast;
use wave_function::chunks::{collapse_in_chunks, render_chunks};
use wave_function::image::all_transformations;
use wave_function::{
    ArgsFault, AtlasFault, Cell, Direction, Image, Manifest, MapFault, Pixel, TileMap, TileSet,
    Tileset, TilesetBuilder, Transformation, WfcError,
};

fn grey(v: u8) -> Pixel {
    Pixel { r: v, g: v, b: v, a: 255 }
}

fn image_of(rows: &[&[u8]]) -> Image {
    Image::new(rows.iter().map(|row| row.iter().map(|&v| grey(v)).collect()).collect()).unwrap()
}

fn values(image: &Image) -> Vec<Vec<u8>> {
    (0..image.height())
        .map(|y| (0..image.width()).map(|x| image.pixel(y, x).r).collect())
        .collect()
}

/// Vertical stripes of two colours, each stripe one pixel wide.
fn stripes(height: usize, width: usize) -> Image {
    Image::new((0..height).map(|_| (0..width).map(|x| grey((x % 2) as u8)).collect()).collect())
        .unwrap()
}

fn identity() -> Vec<Transformation> {
    vec![Transformation::Identity]
}

#[test]
fn builders_refuse_bad_sizes() {
    assert_eq!(
        TilesetBuilder::new(0, 1).err(),
        Some(WfcError::InvalidArgs(ArgsFault::ZeroTileSize))
    );
    assert_eq!(
        TilesetBuilder::new(1, 0).err(),
        Some(WfcError::InvalidArgs(ArgsFault::ZeroBorderSize))
    );
    assert_eq!(
        TilesetBuilder::new(1, usize::MAX).err(),
        Some(WfcError::InvalidArgs(ArgsFault::TooLarge))
    );
    let builder = TilesetBuilder::new(2, 3).unwrap();
    assert_eq!(builder.interior_size(), 2);
    assert_eq!(builder.border_size(), 3);
    assert_eq!(builder.tile_size(), 8);
    assert_eq!(builder.len(), 0);
}

#[test]
fn cutting_counts_equal_patches() {
    // Patches of side three, cut every two pixels from stripes: the
    // patches at even columns are equal, and so are those at odd columns.
    let builder = TilesetBuilder::new(1, 1).unwrap();
    let builder = builder.add_tiles(&stripes(5, 9), 1, &identity()).unwrap();
    // Columns 0, 2, 4, 6 and rows 0, 2: eight patches, all equal.
    assert_eq!(builder.len(), 1);
    assert_eq!(builder.frequencies(), &vec![8]);
    assert_eq!(values(&builder.tiles()[0]), vec![vec![0, 1, 0]; 3]);

    let builder = TilesetBuilder::new(1, 1).unwrap();
    let builder = builder.add_tiles(&stripes(5, 9), 2, &identity()).unwrap();
    // Every column from 0 to 6 and every row from 0 to 2: 21 patches.
    assert_eq!(builder.len(), 2);
    assert_eq!(builder.frequencies(), &vec![12, 9]);
    assert_eq!(values(&builder.tiles()[1]), vec![vec![1, 0, 1]; 3]);
}

#[test]
fn cutting_takes_patches_in_reading_order() {
    let sheet = image_of(&[
        &[1, 1, 1, 2, 2, 2, 0],
        &[1, 1, 1, 2, 2, 2, 0],
        &[1, 1, 1, 2, 2, 2, 0],
        &[3, 3, 3, 1, 1, 1, 0],
        &[3, 3, 3, 1, 1, 1, 0],
        &[3, 3, 3, 1, 1, 1, 0],
        &[0, 0, 0, 0, 0, 0, 0],
    ]);
    let builder = TilesetBuilder::new(1, 1).unwrap().add_tiles(&sheet, 0, &identity()).unwrap();
    assert_eq!(builder.len(), 3);
    assert_eq!(builder.frequencies(), &vec![2, 1, 1]);
    assert_eq!(values(&builder.tiles()[0])[1][1], 1);
    assert_eq!(values(&builder.tiles()[1])[1][1], 2);
    assert_eq!(values(&builder.tiles()[2])[1][1], 3);
    // A second image adds to the counts.
    let builder = builder.add_tiles(&sheet, 0, &identity()).unwrap();
    assert_eq!(builder.frequencies(), &vec![4, 2, 2]);
}

#[test]
fn cutting_takes_every_transformation() {
    let sheet = image_of(&[&[0, 0, 0, 0], &[0, 1, 2, 0], &[0, 3, 4, 0], &[0, 0, 0, 0]]);
    let builder = TilesetBuilder::new(2, 1)
        .unwrap()
        .add_tiles(&sheet, 0, &all_transformations())
        .unwrap();
    // The patch has no symmetry: its eight images are all different.
    assert_eq!(builder.len(), 8);
    assert_eq!(builder.frequencies(), &vec![1; 8]);
    assert!(builder.tiles()[0].same_pixels(&sheet));
    assert_eq!(values(&builder.tiles()[1].interior(1)), vec![vec![3, 1], vec![4, 2]]);
    // A patch of one colour has every symmetry: one tile, counted eight times.
    let builder = TilesetBuilder::new(2, 1)
        .unwrap()
        .add_tiles(&Image::filled(4, 4, grey(7)), 0, &all_transformations())
        .unwrap();
    assert_eq!(builder.len(), 1);
    assert_eq!(builder.frequencies(), &vec![8]);
}

#[test]
fn cutting_refuses_bad_arguments() {
    let sheet = stripes(4, 6);
    let cut = |overlap: usize, turns: Vec<Transformation>| {
        TilesetBuilder::new(1, 1).unwrap().add_tiles(&sheet, overlap, &turns).err()
    };
    assert_eq!(cut(0, vec![]), Some(WfcError::InvalidArgs(ArgsFault::NoTransformations)));
    assert_eq!(cut(3, identity()), Some(WfcError::InvalidArgs(ArgsFault::OverlapTooLarge)));
    assert_eq!(cut(7, vec![]), Some(WfcError::InvalidArgs(ArgsFault::NoTransformations)));
    assert_eq!(cut(2, identity()), None);
    let small = TilesetBuilder::new(3, 1).unwrap().add_tiles(&sheet, 0, &identity()).err();
    assert_eq!(small, Some(WfcError::InvalidArgs(ArgsFault::ImageTooSmall)));
}

/// The atlas of the stripes: tile 0 is dark, light, dark and tile 1 is
/// light, dark, light.
fn striped_atlas() -> Tileset {
    TilesetBuilder::new(1, 1)
        .unwrap()
        .add_tiles(&stripes(5, 9), 2, &identity())
        .unwrap()
        .build()
        .unwrap()
}

#[test]
fn rules_come_from_the_borders() {
    let builder = TilesetBuilder::new(1, 1).unwrap().add_tiles(&stripes(5, 9), 2, &identity());
    let builder = builder.unwrap();
    let table = builder.adjacency_matrix().unwrap();
    // With a border of one pixel, a tile that ends dark needs a neighbour
    // that starts dark: tile 0 next to tile 0, tile 1 next to tile 1.
    assert!(table.get(0, 0, 0));
    assert!(!table.get(0, 1, 0));
    assert!(!table.get(1, 0, 0));
    assert!(table.get(1, 1, 0));
    // Above and below, the stripes go on.
    assert!(table.get(0, 0, 1));
    assert!(!table.get(0, 1, 1));
    assert!(table.get(1, 1, 1));
    let atlas = builder.build().unwrap();
    let rules = atlas.rules();
    for t in 0..2 {
        for u in 0..2 {
            for d in [Direction::North, Direction::East, Direction::South, Direction::West] {
                assert_eq!(rules.allows(t, d, u), t == u);
            }
        }
    }
}

#[test]
fn an_atlas_keeps_what_was_learned() {
    let atlas = striped_atlas();
    assert_eq!(atlas.len(), 2);
    assert_eq!(atlas.interior_size(), 1);
    assert_eq!(atlas.border_size(), 1);
    assert_eq!(atlas.weights(), vec![12, 9]);
    assert_eq!(atlas.frequency(1), 9);
    assert_eq!(atlas.max_frequency(), Some(12));
    assert_eq!(atlas.rules().frequencies(), &vec![12, 9]);
    assert_eq!(atlas.tiles().len(), 2);
    assert_eq!(atlas.tiles()[1].1, 9);
    let interiors = atlas.interiors();
    assert_eq!(values(&interiors[0]), vec![vec![1]]);
    assert_eq!(values(&interiors[1]), vec![vec![0]]);
}

#[test]
fn an_atlas_without_patches_cannot_be_built() {
    let builder = TilesetBuilder::new(1, 1).unwrap();
    assert_eq!(
        builder.adjacency_matrix().err(),
        Some(WfcError::InvalidAtlas(AtlasFault::Empty))
    );
    assert_eq!(
        TilesetBuilder::new(1, 1).unwrap().build().err(),
        Some(WfcError::InvalidAtlas(AtlasFault::Empty))
    );
}

#[test]
fn atlas_parts_are_checked() {
    let rules = || striped_atlas().rules().adjacency_matrix().unwrap();
    let tiles = |side: usize, counts: [usize; 2]| -> Vec<(Image, usize)> {
        counts.iter().map(|&c| (Image::filled(side, side, grey(c as u8)), c)).collect()
    };
    let fresh = || wave_function::Rules::new(&rules(), vec![12, 9]).unwrap();
    assert!(Tileset::new(1, 1, tiles(3, [12, 9]), fresh()).is_ok());
    assert_eq!(
        Tileset::new(0, 1, tiles(3, [12, 9]), fresh()).err(),
        Some(WfcError::InvalidArgs(ArgsFault::ZeroTileSize))
    );
    assert_eq!(
        Tileset::new(1, 0, tiles(3, [12, 9]), fresh()).err(),
        Some(WfcError::InvalidArgs(ArgsFault::ZeroBorderSize))
    );
    assert_eq!(
        Tileset::new(1, 1, tiles(4, [12, 9]), fresh()).err(),
        Some(WfcError::InvalidArgs(ArgsFault::ImageTooSmall))
    );
    assert_eq!(
        Tileset::new(1, 1, tiles(3, [12, 8]), fresh()).err(),
        Some(WfcError::InvalidAtlas(AtlasFault::ShapeMismatch))
    );
    let mut three = tiles(3, [12, 9]);
    three.push((Image::filled(3, 3, grey(0)), 1));
    assert_eq!(
        Tileset::new(1, 1, three, fresh()).err(),
        Some(WfcError::InvalidAtlas(AtlasFault::ShapeMismatch))
    );
}

#[test]
fn atlas_manifest_round_trip() {
    let atlas = striped_atlas();
    let paths: Vec<Vec<u8>> = vec![b"./tiles/0.png".to_vec(), b"./tiles/1.png".to_vec()];
    let first = atlas.manifest(paths.clone()).unwrap();
    let text = first.to_text();
    assert_eq!(
        String::from_utf8(text.clone()).unwrap(),
        "./tiles/0.png    12    1 0    1 0 \n./tiles/1.png     9    0 1    0 1 \n"
    );
    let read = Manifest::from_text(&text).unwrap();
    assert_eq!(read.paths, paths);
    let images: Vec<Image> = atlas.tiles().iter().map(|t| t.0.duplicate()).collect();
    let loaded = Tileset::from_manifest(1, 1, &images, read).unwrap();
    assert_eq!(loaded.weights(), atlas.weights());
    for t in 0..2 {
        for u in 0..2 {
            for d in [Direction::North, Direction::East, Direction::South, Direction::West] {
                assert_eq!(loaded.rules().allows(t, d, u), atlas.rules().allows(t, d, u));
            }
        }
    }
    assert_eq!(loaded.manifest(paths).unwrap().to_text(), text);
    assert_eq!(
        atlas.manifest(vec![]).err(),
        Some(WfcError::InvalidAtlas(AtlasFault::ShapeMismatch))
    );
}

#[test]
fn a_manifest_with_a_zero_frequency_makes_no_atlas() {
    let manifest = Manifest::from_text(b"a.png 0 1 1\n").unwrap();
    let images = vec![Image::filled(3, 3, grey(0))];
    assert_eq!(
        Tileset::from_manifest(1, 1, &images, manifest).err(),
        Some(WfcError::InvalidAtlas(AtlasFault::ZeroFrequency))
    );
    let manifest = Manifest::from_text(b"a.png 2 1 1\n").unwrap();
    assert_eq!(
        Tileset::from_manifest(1, 1, &vec![], manifest).err(),
        Some(WfcError::InvalidAtlas(AtlasFault::ShapeMismatch))
    );
}

#[test]
fn loading_checks_the_manifest_before_the_pictures() {
    // One line, but no picture: the zero frequency is found first.
    let manifest = Manifest::from_text(b"a.png 0 1 1\n").unwrap();
    assert_eq!(
        Tileset::from_manifest(0, 1, &vec![], manifest).err(),
        Some(WfcError::InvalidAtlas(AtlasFault::ZeroFrequency))
    );
    let manifest = Manifest::from_text(b"a.png 1 1 1\n").unwrap();
    assert_eq!(
        Tileset::from_manifest(0, 1, &vec![], manifest).err(),
        Some(WfcError::InvalidAtlas(AtlasFault::ShapeMismatch))
    );
    let manifest = Manifest::from_text(b"a.png 1 1 1\n").unwrap();
    assert_eq!(
        Tileset::from_manifest(0, 1, &vec![Image::filled(3, 3, grey(1))], manifest).err(),
        Some(WfcError::InvalidArgs(ArgsFault::ZeroTileSize))
    );
    let manifest = Manifest::from_text(b"a.png 1 1 1\n").unwrap();
    assert_eq!(
        Tileset::from_manifest(2, 1, &vec![Image::filled(3, 3, grey(1))], manifest).err(),
        Some(WfcError::InvalidArgs(ArgsFault::ImageTooSmall))
    );
    let manifest = Manifest::from_text(b"a.png 1 1 1\n").unwrap();
    let atlas = Tileset::from_manifest(1, 1, &vec![Image::filled(3, 3, grey(1))], manifest);
    assert!(atlas.unwrap().rules().allows(0, Direction::West, 0));
}

#[test]
fn a_frame_that_leaves_nothing_is_refused() {
    let atlas = striped_atlas();
    let chunks = vec![vec![TileMap::from_str("0 0\n0 0\n").unwrap()]];
    assert!(render_chunks(&chunks, &atlas, 1).is_ok());
    assert_eq!(
        render_chunks(&chunks, &atlas, 2).err(),
        Some(WfcError::InvalidArgs(ArgsFault::BorderTooLarge))
    );
    let unknown = vec![vec![TileMap::from_str("0 7\n").unwrap()]];
    assert_eq!(
        render_chunks(&unknown, &atlas, 0).err(),
        Some(WfcError::InvalidMap(MapFault::IndexOutOfRange))
    );
    assert_eq!(
        render_chunks(&vec![], &atlas, 0).err(),
        Some(WfcError::InvalidArgs(ArgsFault::DimensionMismatch))
    );
}

#[test]
fn maps_are_drawn_with_the_interiors() {
    let atlas = striped_atlas();
    let map = TileMap::from_str("0 1 *\n! 1 0\n").unwrap();
    let picture = map.render(&atlas).unwrap();
    assert_eq!((picture.height(), picture.width()), (2, 3));
    assert_eq!(picture.pixel(0, 0), grey(1));
    assert_eq!(picture.pixel(0, 1), grey(0));
    assert_eq!(picture.pixel(0, 2), Pixel { r: 255, g: 0, b: 255, a: 255 });
    assert_eq!(picture.pixel(1, 0), Pixel { r: 0, g: 0, b: 0, a: 0 });
    assert_eq!(picture.pixel(1, 1), grey(0));
    assert_eq!(picture.pixel(1, 2), grey(1));
    let unknown = TileMap::from_str("0 2\n").unwrap();
    assert_eq!(
        unknown.render(&atlas).err(),
        Some(WfcError::InvalidMap(MapFault::IndexOutOfRange))
    );
}

#[test]
fn maps_are_drawn_with_interiors_of_several_pixels() {
    let sheet = image_of(&[&[0, 0, 0, 0], &[0, 1, 2, 0], &[0, 3, 4, 0], &[0, 0, 0, 0]]);
    let atlas = TilesetBuilder::new(2, 1)
        .unwrap()
        .add_tiles(&sheet, 0, &identity())
        .unwrap()
        .build()
        .unwrap();
    let map = TileMap::from_str("0 0\n").unwrap();
    assert_eq!(values(&map.render(&atlas).unwrap()), vec![vec![1, 2, 1, 2], vec![3, 4, 3, 4]]);
}

#[test]
fn drawing_and_cutting_again_counts_every_cell_once() {
    // Four tiles of one pixel each with a border of one pixel, all
    // different. A map with every cell fixed to another tile is drawn and
    // cut again without overlap: every patch of the picture is new, and
    // each is counted once.
    let sheet = image_of(&[
        &[0, 0, 0, 0, 0, 0],
        &[0, 1, 0, 0, 2, 0],
        &[0, 0, 0, 0, 0, 0],
        &[0, 0, 0, 0, 0, 0],
        &[0, 3, 0, 0, 4, 0],
        &[0, 0, 0, 0, 0, 0],
    ]);
    let atlas = TilesetBuilder::new(1, 1)
        .unwrap()
        .add_tiles(&sheet, 0, &identity())
        .unwrap()
        .build()
        .unwrap();
    assert_eq!(atlas.weights(), vec![1, 1, 1, 1]);
    let map = TileMap::from_str("0 1 2 3 0 1\n1 2 3 0 1 2\n2 3 0 1 2 3\n").unwrap();
    let picture = map.render(&atlas).unwrap();
    assert_eq!((picture.height(), picture.width()), (3, 6));
    let again = TilesetBuilder::new(1, 1).unwrap().add_tiles(&picture, 0, &identity()).unwrap();
    assert_eq!(again.len(), 2);
    assert_eq!(again.frequencies(), &vec![1, 1]);
}

#[test]
fn tile_sets_keep_every_patch_once() {
    // Interiors of one pixel, borders of one pixel: patches are cut every
    // pixel.
    let set = TileSet::new(1, 1).unwrap().ingest(&stripes(4, 6)).unwrap();
    assert_eq!(set.num_tiles(), 2);
    assert_eq!(values(&set.tiles()[0]), vec![vec![0, 1, 0]; 3]);
    assert_eq!(values(&set.tiles()[1]), vec![vec![1, 0, 1]; 3]);
    assert_eq!(
        TileSet::new(4, 1).unwrap().ingest(&stripes(4, 6)).err(),
        Some(WfcError::InvalidArgs(ArgsFault::ImageTooSmall))
    );
    assert!(TileSet::new(0, 1).is_err());
}

#[test]
fn tile_sets_grow_by_transformations() {
    let set = TileSet::new(1, 1).unwrap().ingest(&stripes(3, 3)).unwrap();
    assert_eq!(set.num_tiles(), 1);
    let set = set
        .with_transformations(&vec![Transformation::Identity, Transformation::Rotate90])
        .unwrap();
    assert_eq!(set.num_tiles(), 2);
    assert_eq!(values(&set.tiles()[0]), vec![vec![0, 1, 0]; 3]);
    assert_eq!(values(&set.tiles()[1]), vec![vec![0, 0, 0], vec![1, 1, 1], vec![0, 0, 0]]);
    let set = set.with_transformations(&all_transformations()).unwrap();
    assert_eq!(set.num_tiles(), 2);
}

#[test]
fn tile_sets_give_rules_in_list_form() {
    let set = TileSet::new(1, 1).unwrap().ingest(&stripes(4, 6)).unwrap();
    let rules = set.generate_rules().unwrap();
    assert_eq!(rules.num_tiles(), 2);
    // With borders of one pixel, dark meets dark and light meets light.
    assert_eq!(rules.rule(0).east, vec![0]);
    assert_eq!(rules.rule(0).west, vec![0]);
    assert_eq!(rules.rule(0).north, vec![0]);
    assert_eq!(rules.rule(0).south, vec![0]);
    assert_eq!(rules.rule(1).east, vec![1]);
    assert_eq!(rules.num_rules(), 8);
    assert_eq!(
        TileSet::new(1, 1).unwrap().generate_rules().err(),
        Some(WfcError::InvalidAtlas(AtlasFault::Empty))
    );
}

#[test]
fn chunks_agree_along_their_seams() {
    // Horizontal and vertical stripes give an atlas with real choices.
    let sheet = image_of(&[
        &[0, 1, 0, 1, 0, 1],
        &[2, 3, 2, 3, 2, 3],
        &[0, 1, 0, 1, 0, 1],
        &[2, 3, 2, 3, 2, 3],
        &[0, 1, 0, 1, 0, 1],
    ]);
    let atlas = TilesetBuilder::new(1, 1)
        .unwrap()
        .add_tiles(&sheet, 2, &identity())
        .unwrap()
        .build()
        .unwrap();
    for seed in 0..5 {
        let mut rng = StdRng::seed_from_u64(seed);
        let chunks =
            collapse_in_chunks::<WaveFunctionFast>(atlas.rules(), (4, 5), (2, 3), 1, &mut rng)
                .unwrap();
        assert_eq!(chunks.len(), 2);
        for cy in 0..2 {
            assert_eq!(chunks[cy].len(), 3);
            for cx in 0..3 {
                let chunk = &chunks[cy][cx];
                assert_eq!(chunk.size(), (4, 5));
                let picture = chunk.render(&atlas).unwrap();
                if cx > 0 {
                    // The western column is the eastern column of the
                    // neighbour, cell by cell and pixel by pixel.
                    let west = &chunks[cy][cx - 1];
                    let west_picture = west.render(&atlas).unwrap();
                    for y in 0..4 {
                        assert_eq!(chunk.get((y, 0)), west.get((y, 4)));
                        assert_eq!(picture.pixel(y, 0), west_picture.pixel(y, 4));
                    }
                }
                if cy > 0 {
                    let north = &chunks[cy - 1][cx];
                    for x in (if cx > 0 { 1 } else { 0 })..5 {
                        assert_eq!(chunk.get((0, x)), north.get((3, x)));
                    }
                }
                for y in 0..4 {
                    for x in 0..5 {
                        assert!(matches!(chunk.get((y, x)), Cell::Fixed(_)));
                    }
                }
            }
        }
        let whole = render_chunks(&chunks, &atlas, 1).unwrap();
        assert_eq!((whole.height(), whole.width()), (8, 15));
        let trimmed = render_chunks(&chunks, &atlas, 2).unwrap();
        assert_eq!((trimmed.height(), trimmed.width()), (4, 9));
        assert_eq!(trimmed.pixel(0, 0), chunks[0][0].render(&atlas).unwrap().pixel(1, 1));
    }
}

#[test]
fn chunked_maps_refuse_bad_geometry() {
    let atlas = striped_atlas();
    let mut rng = StdRng::seed_from_u64(0);
    let mut run = |chunk, count, border| {
        collapse_in_chunks::<WaveFunctionFast>(atlas.rules(), chunk, count, border, &mut rng).err()
    };
    assert_eq!(run((0, 4), (1, 1), 1), Some(WfcError::InvalidArgs(ArgsFault::ZeroTileSize)));
    assert_eq!(run((4, 4), (0, 1), 1), Some(WfcError::InvalidArgs(ArgsFault::ZeroTileSize)));
    assert_eq!(run((4, 4), (1, 1), 0), Some(WfcError::InvalidArgs(ArgsFault::ZeroBorderSize)));
    assert_eq!(run((4, 4), (1, 1), 4), Some(WfcError::InvalidArgs(ArgsFault::BorderTooLarge)));
    assert_eq!(
        run((usize::MAX, 2), (1, 1), 1),
        Some(WfcError::InvalidArgs(ArgsFault::TooLarge))
    );
    assert_eq!(run((4, 4), (1, 2), 1), None);
}
