use flamegraph::color::{BackgroundColor, Color, Palette};
use flamegraph::options::{text, Direction, Options, Settings};

fn settings() -> Settings {
    Settings {
        inverted: false,
        colors: Palette::Java,
        bgcolors: Some(BackgroundColor::Flat(Color { r: 1, g: 2, b: 3 })),
        hash: true,
        title: b"Flame Graph".to_vec(),
        subtitle: Some(b"of a test".to_vec()),
        image_width: 800,
        frame_height: 20,
        min_width: 250,
        font_type: b"Helvetica".to_vec(),
        font_size: 10,
        font_width: 600,
        count_name: b"bytes".to_vec(),
        name_type: b"Method:".to_vec(),
        notes: b"a note".to_vec(),
        negate: true,
        factor: 1500,
        pretty_xml: true,
        no_javascript: true,
        frame_attrs: None,
    }
}

#[test]
fn the_settings_that_nothing_was_asked_for() {
    let o = Options::default();
    assert_eq!(o.colors, Palette::Hot);
    assert_eq!(o.bgcolors, None);
    assert!(!o.hash);
    assert_eq!(o.direction, Direction::Straight);
    assert_eq!(o.title, b"Flame Graph".to_vec());
    assert_eq!(o.subtitle, None);
    assert_eq!(o.image_width, 1200);
    assert_eq!(o.frame_height, 16);
    assert_eq!(o.min_width, 100);
    assert_eq!(o.font_type, b"Verdana".to_vec());
    assert_eq!(o.font_size, 12);
    assert_eq!(o.font_width, 590);
    assert_eq!(o.count_name, b"samples".to_vec());
    assert_eq!(o.name_type, b"Function:".to_vec());
    assert_eq!(o.notes, b"".to_vec());
    assert!(!o.negate_differentials);
    assert_eq!(o.factor, 1000);
    assert!(!o.pretty_xml);
    assert!(!o.no_javascript);
    assert_eq!(o.func_frameattrs.entries.len(), 0);
}

#[test]
fn what_was_asked_for_becomes_the_settings() {
    let o = settings().into_parts();
    assert_eq!(o.colors, Palette::Java);
    assert_eq!(o.bgcolors, Some(BackgroundColor::Flat(Color { r: 1, g: 2, b: 3 })));
    assert!(o.hash);
    assert_eq!(o.direction, Direction::Straight);
    assert_eq!(o.title, b"Flame Graph".to_vec());
    assert_eq!(o.subtitle, Some(b"of a test".to_vec()));
    assert_eq!(o.image_width, 800);
    assert_eq!(o.frame_height, 20);
    assert_eq!(o.min_width, 250);
    assert_eq!(o.font_type, b"Helvetica".to_vec());
    assert_eq!(o.font_size, 10);
    assert_eq!(o.font_width, 600);
    assert_eq!(o.count_name, b"bytes".to_vec());
    assert_eq!(o.name_type, b"Method:".to_vec());
    assert_eq!(o.notes, b"a note".to_vec());
    assert!(o.negate_differentials);
    assert_eq!(o.factor, 1500);
    assert!(o.pretty_xml);
    assert!(o.no_javascript);
}

#[test]
fn an_inverted_graph_without_a_title_of_its_own_is_an_icicle_graph() {
    let mut s = settings();
    s.inverted = true;
    let o = s.into_parts();
    assert_eq!(o.direction, Direction::Inverted);
    assert_eq!(o.title, b"Icicle Graph".to_vec());
    let mut s = settings();
    s.inverted = true;
    s.title = b"My Graph".to_vec();
    assert_eq!(s.into_parts().title, b"My Graph".to_vec());
    let mut s = settings();
    s.title = b"My Graph".to_vec();
    assert_eq!(s.into_parts().title, b"My Graph".to_vec());
}

#[test]
fn the_bytes_of_a_text() {
    assert_eq!(text("abc"), vec![0x61, 0x62, 0x63]);
    assert_eq!(text(""), Vec::<u8>::new());
    assert_eq!(text("é"), vec![0xc3, 0xa9]);
}
