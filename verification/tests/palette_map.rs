use flamegraph::color::Color;
use flamegraph::palette_map::{
    fetch_consistent_palette_if_needed, parse_color, push_color, save_consistent_palette_if_needed,
    PaletteError, PaletteMap,
};

fn rgb(r: u8, g: u8, b: u8) -> Color {
    Color { r, g, b }
}

fn listed(m: &PaletteMap) -> Vec<(Vec<u8>, Color)> {
    m.entries.iter().map(|e| (e.name.clone(), e.color)).collect()
}

#[test]
fn a_map_keeps_its_names_in_order() {
    let mut m = PaletteMap::new();
    assert!(m.insert(b"zeta", rgb(1, 2, 3)));
    assert!(m.insert(b"alpha", rgb(4, 5, 6)));
    assert!(m.insert(b"mid", rgb(7, 8, 9)));
    assert!(m.insert(b"alpha", rgb(10, 11, 12)));
    assert_eq!(m.len(), 3);
    assert_eq!(
        listed(&m),
        vec![
            (b"alpha".to_vec(), rgb(10, 11, 12)),
            (b"mid".to_vec(), rgb(7, 8, 9)),
            (b"zeta".to_vec(), rgb(1, 2, 3)),
        ]
    );
    assert_eq!(m.get(b"mid"), Some(rgb(7, 8, 9)));
    assert_eq!(m.get(b"beta"), None);
    assert_eq!(m.get(b""), None);
}

#[test]
fn a_name_with_a_line_feed_is_not_taken() {
    let mut m = PaletteMap::new();
    assert!(m.insert(b"a", rgb(1, 1, 1)));
    assert!(!m.insert(b"two\nlines", rgb(2, 2, 2)));
    assert_eq!(m.len(), 1);
    assert_eq!(m.get(b"two\nlines"), None);
}

#[test]
fn the_text_of_a_map() {
    let mut m = PaletteMap::new();
    m.insert(b"main", rgb(255, 0, 17));
    m.insert(b"a b", rgb(0, 0, 0));
    assert_eq!(m.save(), b"a b\trgb(0,0,0)\nmain\trgb(255,0,17)\n".to_vec());
    assert_eq!(PaletteMap::new().save(), b"".to_vec());
}

#[test]
fn a_map_that_is_written_and_read_again_is_the_same() {
    let mut m = PaletteMap::new();
    m.insert(b"main", rgb(255, 0, 17));
    m.insert(b"with\ttab", rgb(1, 20, 255));
    m.insert(b"", rgb(9, 9, 9));
    m.insert(b"std::vector<int, std::allocator<int> >::push_back", rgb(100, 100, 100));
    m.insert("h\u{e9}llo".as_bytes(), rgb(0, 128, 7));
    let text = m.save();
    let back = PaletteMap::load(&text).ok().unwrap();
    assert_eq!(listed(&back), listed(&m));
    assert_eq!(back.save(), text);
}

#[test]
fn reading_a_map() {
    let m = PaletteMap::load(b"b\trgb(1,2,3)\n\na\trgb(004,5,6)\nb\trgb(7,8,9)").ok().unwrap();
    assert_eq!(listed(&m), vec![(b"a".to_vec(), rgb(4, 5, 6)), (b"b".to_vec(), rgb(7, 8, 9))]);
    assert_eq!(PaletteMap::load(b"").ok().unwrap().len(), 0);
    assert_eq!(PaletteMap::load(b"\n\n").ok().unwrap().len(), 0);
}

#[test]
fn a_text_that_is_no_map() {
    assert_eq!(PaletteMap::load(b"a\trgb(1,2,3)\nno tab here\n").err(), Some(PaletteError { line: 2 }));
    assert_eq!(PaletteMap::load(b"a\trgb(1,2,256)\n").err(), Some(PaletteError { line: 1 }));
    assert_eq!(PaletteMap::load(b"\n\na\trgb(1,2)\n").err(), Some(PaletteError { line: 3 }));
    assert_eq!(PaletteMap::load(b"a\trgb(1,2,3) \n").err(), Some(PaletteError { line: 1 }));
    assert_eq!(PaletteMap::load(b"a\t#010203\n").err(), Some(PaletteError { line: 1 }));
    assert_eq!(PaletteMap::load(b"a\trgb(1,2,3)\r\n").err(), Some(PaletteError { line: 1 }));
}

#[test]
fn the_text_of_a_color() {
    let mut out = b"fill=".to_vec();
    push_color(&mut out, rgb(0, 17, 255));
    assert_eq!(out, b"fill=rgb(0,17,255)".to_vec());
    assert_eq!(parse_color(b"xrgb(0,17,255)y", 1, 14), Some(rgb(0, 17, 255)));
    assert_eq!(parse_color(b"rgb(0,17,255)", 0, 13), Some(rgb(0, 17, 255)));
    assert_eq!(parse_color(b"rgb(0,17,)", 0, 10), None);
    assert_eq!(parse_color(b"rgb(0,17,1,2)", 0, 13), None);
    assert_eq!(parse_color(b"rgb()", 0, 5), None);
    assert_eq!(parse_color(b"rgb(", 0, 4), None);
}

#[test]
fn the_palette_of_a_run() {
    assert!(fetch_consistent_palette_if_needed(false, None).ok().unwrap().is_none());
    assert!(fetch_consistent_palette_if_needed(false, Some(b"garbage")).ok().unwrap().is_none());
    let fresh = fetch_consistent_palette_if_needed(true, None).ok().unwrap().unwrap();
    assert_eq!(fresh.len(), 0);
    let read = fetch_consistent_palette_if_needed(true, Some(b"f\trgb(1,2,3)\n")).ok().unwrap().unwrap();
    assert_eq!(listed(&read), vec![(b"f".to_vec(), rgb(1, 2, 3))]);
    assert_eq!(
        fetch_consistent_palette_if_needed(true, Some(b"garbage")).err(),
        Some(PaletteError { line: 1 })
    );
    assert_eq!(save_consistent_palette_if_needed(&None), None);
    assert_eq!(
        save_consistent_palette_if_needed(&Some(read)),
        Some(b"f\trgb(1,2,3)\n".to_vec())
    );
}
