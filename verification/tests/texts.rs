use wave_function::text::{
    digit_count, parse_number, push_number, read_table, split, write_table, Cut,
};
use wave_function::tileset::patch_file_name;
use wave_function::{Adjacency, AtlasFault, Cell, Manifest, MapFault, Tile, TileMap, WfcError};

fn words(list: &[&str]) -> Vec<Vec<u8>> {
    list.iter().map(|w| w.as_bytes().to_vec()).collect()
}

#[test]
fn texts_are_cut_into_pieces() {
    assert_eq!(split(b"  12 *\t!  ", Cut::Words), words(&["12", "*", "!"]));
    assert_eq!(split(b"", Cut::Words), words(&[]));
    assert_eq!(split(b" \r\n ", Cut::Words), words(&[]));
    assert_eq!(split(b"a b\n\nc\n", Cut::Lines), words(&["a b", "c"]));
    assert_eq!(split(b"one", Cut::Lines), words(&["one"]));
}

#[test]
fn tables_skip_blank_lines_and_comments() {
    let table = read_table(b"# head\n 1 2\n\n   \n  # 3 4\n5\t6 \r\n#\n");
    assert_eq!(table, vec![words(&["1", "2"]), words(&["5", "6"])]);
}

#[test]
fn numbers_are_read() {
    assert_eq!(parse_number(&b"0".to_vec()), Some(0));
    assert_eq!(parse_number(&b"007".to_vec()), Some(7));
    assert_eq!(parse_number(&b"1234567890".to_vec()), Some(1234567890));
    assert_eq!(parse_number(&usize::MAX.to_string().into_bytes()), Some(usize::MAX));
    assert_eq!(parse_number(&b"".to_vec()), None);
    assert_eq!(parse_number(&b"-1".to_vec()), None);
    assert_eq!(parse_number(&b"+1".to_vec()), None);
    assert_eq!(parse_number(&b"12a".to_vec()), None);
    assert_eq!(parse_number(&b"99999999999999999999999".to_vec()), None);
    let mut above = usize::MAX.to_string().into_bytes();
    let last = above.len() - 1;
    above[last] += 1;
    assert_eq!(parse_number(&above), None);
}

#[test]
fn numbers_are_written() {
    for n in [0usize, 7, 10, 99, 100, 12345, usize::MAX] {
        let mut out = b"x".to_vec();
        push_number(n, &mut out);
        assert_eq!(out, format!("x{}", n).into_bytes());
        assert_eq!(digit_count(n), n.to_string().len());
    }
}

#[test]
fn tables_are_written_with_their_gaps() {
    let table = vec![words(&["a", "bc"]), words(&["d"])];
    let gaps = vec![vec![0, 2], vec![1]];
    assert_eq!(write_table(&table, &gaps), b"a   bc \n d \n".to_vec());
    assert_eq!(read_table(&write_table(&table, &gaps)), table);
}

#[test]
fn cells_and_words() {
    assert_eq!(Cell::Ignore.to_word(), b"!".to_vec());
    assert_eq!(Cell::Wildcard.to_word(), b"*".to_vec());
    assert_eq!(Cell::Fixed(0).to_word(), b"0".to_vec());
    assert_eq!(Cell::Fixed(131).to_word(), b"131".to_vec());
    assert_eq!(Cell::from_word(&b"!".to_vec()), Some(Cell::Ignore));
    assert_eq!(Cell::from_word(&b"*".to_vec()), Some(Cell::Wildcard));
    assert_eq!(Cell::from_word(&b"42".to_vec()), Some(Cell::Fixed(42)));
    assert_eq!(Cell::from_word(&b"".to_vec()), None);
    assert_eq!(Cell::from_word(&b"**".to_vec()), None);
    assert_eq!(Cell::from_word(&b"4x".to_vec()), None);
    assert_eq!(Cell::from_word(&b"-4".to_vec()), None);
}

#[test]
fn tiles_say_what_cells_say() {
    assert_eq!(Tile::Fixed(3).to_cell(), Cell::Fixed(3));
    assert_eq!(Tile::Ignore.to_cell(), Cell::Ignore);
    assert_eq!(Tile::from_cell(Cell::Wildcard), Tile::Wildcard);
    assert_eq!(Tile::from_cell(Cell::Fixed(8)), Tile::Fixed(8));
    assert_eq!(Tile::Fixed(12).to_word(), b"12".to_vec());
    assert_eq!(Tile::Wildcard.to_word(), b"*".to_vec());
    assert_eq!(Tile::from_word(&b"!".to_vec()), Some(Tile::Ignore));
    assert_eq!(Tile::from_word(&b"30".to_vec()), Some(Tile::Fixed(30)));
    assert_eq!(Tile::from_word(&b"3o".to_vec()), None);
}

#[test]
fn maps_are_read_from_text() {
    let map = TileMap::from_str(
        "
    0 1 2 3
    4 * * 5
    # a comment
    6 * * 7

    ! ! ! !
    ",
    )
    .unwrap();
    assert_eq!(map.size(), (4, 4));
    assert_eq!(map.get((0, 3)), Cell::Fixed(3));
    assert_eq!(map.get((1, 1)), Cell::Wildcard);
    assert_eq!(map.get((2, 0)), Cell::Fixed(6));
    assert_eq!(map.get((3, 2)), Cell::Ignore);
}

#[test]
fn maps_are_written_as_text() {
    let map = TileMap::from_str("0 1 2\n* 10 !\n").unwrap();
    assert_eq!(map.to_text(), b" 0  1  2 \n * 10  ! \n".to_vec());
    let plain = TileMap::empty((1, 2));
    assert_eq!(plain.to_text(), b"* * \n".to_vec());
}

#[test]
fn map_text_round_trip() {
    let first = TileMap::from_str("7 * 100\n! 3 *\n").unwrap();
    let text = first.to_text();
    let second = TileMap::from_text(&text).unwrap();
    assert_eq!(second.size(), first.size());
    for y in 0..2 {
        for x in 0..3 {
            assert_eq!(second.get((y, x)), first.get((y, x)));
        }
    }
    assert_eq!(second.to_text(), text);
}

#[test]
fn bad_map_texts_are_refused() {
    let fault = |text: &str| TileMap::from_str(text).err();
    assert_eq!(fault(""), Some(WfcError::InvalidMap(MapFault::Empty)));
    assert_eq!(fault("# nothing\n\n  \n"), Some(WfcError::InvalidMap(MapFault::Empty)));
    assert_eq!(fault("1 2\n3\n"), Some(WfcError::InvalidMap(MapFault::RaggedRows)));
    assert_eq!(fault("1 x\n3 4\n"), Some(WfcError::InvalidMap(MapFault::BadToken)));
    assert_eq!(fault("1 -2\n"), Some(WfcError::InvalidMap(MapFault::BadToken)));
    assert_eq!(fault("1 2\n3\nx\n"), Some(WfcError::InvalidMap(MapFault::BadToken)));
}

fn small_manifest() -> Manifest {
    let mut adjacency = Adjacency::new(2).unwrap();
    adjacency.set(0, 1, 0, true);
    adjacency.set(1, 0, 1, true);
    adjacency.set(1, 1, 1, true);
    Manifest { paths: words(&["./out/0.png", "./out/1.png"]), frequencies: vec![5, 12], adjacency }
}

#[test]
fn manifests_are_written_as_text() {
    let text = small_manifest().to_text();
    let expected = "./out/0.png     5    0 1    0 0 \n./out/1.png    12    0 0    1 1 \n";
    assert_eq!(String::from_utf8(text).unwrap(), expected);
}

#[test]
fn manifests_are_read_from_text() {
    let text = "# tiles\n a.png 3  1 0  0 1\n\n b.png 4  0 x  1 11\n";
    let manifest = Manifest::from_text(text.as_bytes()).unwrap();
    assert_eq!(manifest.paths, words(&["a.png", "b.png"]));
    assert_eq!(manifest.frequencies, vec![3, 4]);
    let expected = [[[true, false], [false, true]], [[false, true], [false, false]]];
    for i in 0..2 {
        for j in 0..2 {
            for axis in 0..2 {
                assert_eq!(manifest.adjacency.get(i, j, axis), expected[i][j][axis]);
            }
        }
    }
}

#[test]
fn manifest_text_round_trip() {
    let first = small_manifest();
    let text = first.to_text();
    let second = Manifest::from_text(&text).unwrap();
    assert_eq!(second.paths, first.paths);
    assert_eq!(second.frequencies, first.frequencies);
    for i in 0..2 {
        for j in 0..2 {
            for axis in 0..2 {
                assert_eq!(second.adjacency.get(i, j, axis), first.adjacency.get(i, j, axis));
            }
        }
    }
    assert_eq!(second.to_text(), text);
}

#[test]
fn bad_manifests_are_refused() {
    let fault = |text: &str| Manifest::from_text(text.as_bytes()).err();
    assert_eq!(fault("# none\n"), Some(WfcError::InvalidAtlas(AtlasFault::Empty)));
    assert_eq!(fault("a.png 1 1\n"), Some(WfcError::InvalidAtlas(AtlasFault::MalformedLine)));
    assert_eq!(
        fault("a.png one 1 1\n"),
        Some(WfcError::InvalidAtlas(AtlasFault::MalformedLine))
    );
    assert_eq!(
        fault("a.png 1 1 1\nb.png 1 1 1\n"),
        Some(WfcError::InvalidAtlas(AtlasFault::MalformedLine))
    );
    assert!(Manifest::from_text(b"a.png 1 1 1\n").is_ok());
}

#[test]
fn picture_files_are_numbered_with_leading_zeros() {
    assert_eq!(patch_file_name(0, 1), b"0.png".to_vec());
    assert_eq!(patch_file_name(9, 10), b"9.png".to_vec());
    assert_eq!(patch_file_name(9, 11), b"09.png".to_vec());
    assert_eq!(patch_file_name(7, 1000), b"007.png".to_vec());
    assert_eq!(patch_file_name(999, 1000), b"999.png".to_vec());
    assert_eq!(patch_file_name(42, 10001), b"00042.png".to_vec());
}
