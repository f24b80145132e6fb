use flamegraph::color::{
    background_from_name, band_color, band_of, diff_color, find_bytes, hash_name,
    hash_name_reversed, hashed_color, palette_from_name, parse_hex_color, random_color,
    BackgroundColor, Band, Color, Palette, RandomSource,
};
use flamegraph::line::Annotation;

fn rgb(r: u8, g: u8, b: u8) -> Color {
    Color { r, g, b }
}

#[test]
fn the_hash_of_a_name() {
    assert_eq!(hash_name(b""), 1000);
    assert_eq!(hash_name(b"a"), 612);
    assert_eq!(hash_name(b"ab"), 453);
    assert_eq!(hash_name(b"abc"), 495);
    assert_eq!(hash_name(b"abcdefgh"), 495);
    assert_eq!(hash_name(b"main"), 364);
    assert_eq!(hash_name_reversed(b"abc"), 454);
    assert_eq!(hash_name_reversed(b"main"), 855);
    assert_eq!(hash_name_reversed(b"ab"), 438);
}

#[test]
fn the_color_of_a_band() {
    assert_eq!(band_color(Band::Hot, 0, 0, 0), rgb(205, 0, 0));
    assert_eq!(band_color(Band::Hot, 1000, 1000, 1000), rgb(255, 230, 55));
    assert_eq!(band_color(Band::Hot, 446, 742, 254), rgb(217, 102, 40));
    assert_eq!(band_color(Band::Mem, 500, 500, 500), rgb(0, 215, 105));
    assert_eq!(band_color(Band::Io, 500, 500, 500), rgb(110, 110, 217));
    assert_eq!(band_color(Band::Red, 500, 0, 0), rgb(227, 90, 90));
    assert_eq!(band_color(Band::Green, 500, 0, 0), rgb(80, 227, 80));
    assert_eq!(band_color(Band::Blue, 500, 0, 0), rgb(110, 110, 230));
    assert_eq!(band_color(Band::Yellow, 500, 0, 0), rgb(202, 202, 60));
    assert_eq!(band_color(Band::Purple, 500, 0, 0), rgb(222, 110, 222));
    assert_eq!(band_color(Band::Aqua, 500, 0, 0), rgb(80, 192, 192));
    assert_eq!(band_color(Band::Orange, 500, 0, 0), rgb(222, 122, 0));
    // values above 1000 count as 1000
    assert_eq!(band_color(Band::Hot, 60000, 2000, 1001), rgb(255, 230, 55));
}

#[test]
fn the_color_by_hash_is_the_same_every_time() {
    assert_eq!(hashed_color(Palette::Hot, b"abc", Annotation::Plain), rgb(227, 113, 24));
    assert_eq!(hashed_color(Palette::Hot, b"abc", Annotation::Plain), rgb(227, 113, 24));
    assert_eq!(hashed_color(Palette::Hot, b"main", Annotation::Plain), rgb(247, 83, 47));
    assert_eq!(hashed_color(Palette::Hot, b"", Annotation::Plain), rgb(255, 230, 55));
    assert_eq!(hashed_color(Palette::Red, b"plain", Annotation::Plain), rgb(239, 107, 107));
}

#[test]
fn palettes_for_languages_pick_the_band_by_the_frame() {
    assert_eq!(band_of(Palette::Java, b"std::vector", Annotation::Plain), Band::Yellow);
    assert_eq!(band_of(Palette::Java, b"java/lang/String", Annotation::Plain), Band::Green);
    assert_eq!(band_of(Palette::Java, b"sys_read", Annotation::Kernel), Band::Orange);
    assert_eq!(band_of(Palette::Java, b"x", Annotation::Inlined), Band::Aqua);
    assert_eq!(band_of(Palette::Java, b"x", Annotation::Jit), Band::Green);
    assert_eq!(band_of(Palette::Java, b"plain", Annotation::Plain), Band::Red);
    assert_eq!(band_of(Palette::Js, b"a/b.js", Annotation::Jit), Band::Green);
    assert_eq!(band_of(Palette::Js, b"anon", Annotation::Jit), Band::Aqua);
    assert_eq!(band_of(Palette::Js, b"v8::internal", Annotation::Plain), Band::Yellow);
    assert_eq!(band_of(Palette::Js, b"plain", Annotation::Waker), Band::Red);
    assert_eq!(band_of(Palette::Perl, b"Foo::bar", Annotation::Plain), Band::Yellow);
    assert_eq!(band_of(Palette::Perl, b"Perl_pp_add", Annotation::Plain), Band::Green);
    assert_eq!(band_of(Palette::Perl, b"script.pl", Annotation::Plain), Band::Green);
    assert_eq!(band_of(Palette::Perl, b"read", Annotation::Kernel), Band::Orange);
    assert_eq!(band_of(Palette::Perl, b"read", Annotation::Plain), Band::Red);
    assert_eq!(band_of(Palette::Wakeup, b"anything", Annotation::Plain), Band::Aqua);
    assert_eq!(band_of(Palette::Mem, b"a::b", Annotation::Kernel), Band::Mem);
    assert_eq!(hashed_color(Palette::Java, b"std::vector", Annotation::Plain), rgb(210, 210, 62));
    assert_eq!(hashed_color(Palette::Java, b"sys_read", Annotation::Kernel), rgb(237, 137, 0));
}

#[test]
fn finding_bytes() {
    assert!(find_bytes(b"a::b", b"::"));
    assert!(!find_bytes(b"a:b:", b"::"));
    assert!(find_bytes(b"abc", b""));
    assert!(find_bytes(b"", b""));
    assert!(!find_bytes(b"", b"a"));
    assert!(find_bytes(b"xyz", b"xyz"));
    assert!(find_bytes(b"xyz", b"z"));
    assert!(!find_bytes(b"xy", b"xyz"));
}

#[test]
fn growth_is_red_and_shrinking_is_blue() {
    assert_eq!(diff_color(5, 10, false), rgb(255, 105, 105));
    assert_eq!(diff_color(-5, 10, false), rgb(105, 105, 255));
    assert_eq!(diff_color(10, 10, false), rgb(255, 0, 0));
    assert_eq!(diff_color(-10, 10, false), rgb(0, 0, 255));
    assert_eq!(diff_color(2, 3, false), rgb(255, 70, 70));
    assert_eq!(diff_color(0, 10, false), rgb(255, 255, 255));
    assert_eq!(diff_color(5, 0, false), rgb(255, 255, 255));
    // a change above the largest counts as the largest
    assert_eq!(diff_color(50, 10, false), rgb(255, 0, 0));
}

#[test]
fn negating_changes_the_hues_and_not_the_depth() {
    assert_eq!(diff_color(5, 10, true), rgb(105, 105, 255));
    assert_eq!(diff_color(-5, 10, true), rgb(255, 105, 105));
    assert_eq!(diff_color(0, 10, true), rgb(255, 255, 255));
    for delta in [-10i128, -7, -1, 1, 4, 10] {
        let plain = diff_color(delta, 10, false);
        let negated = diff_color(delta, 10, true);
        assert_eq!(negated, Color { r: plain.b, g: plain.g, b: plain.r });
        assert_eq!(negated, diff_color(-delta, 10, false));
    }
}

#[test]
fn a_random_source_gives_the_same_values_for_the_same_seed() {
    let mut a = RandomSource::new(1);
    assert_eq!(a.state, 2);
    assert_eq!(a.next_value(), 446);
    assert_eq!(a.next_value(), 742);
    assert_eq!(a.next_value(), 254);
    assert_eq!(a.state, 435306125);
    let mut b = RandomSource::new(1);
    assert_eq!(random_color(Palette::Hot, b"f", Annotation::Plain, &mut b), rgb(217, 102, 40));
    assert_eq!(b.state, 435306125);
    let mut c = RandomSource::new(12345);
    assert_eq!(random_color(Palette::Hot, b"f", Annotation::Plain, &mut c), rgb(215, 93, 53));
    assert_eq!(c.state, 642667228);
}

#[test]
fn palettes_by_name() {
    let names = [
        "hot", "mem", "io", "wakeup", "java", "js", "perl", "red", "green", "blue", "aqua",
        "yellow", "purple", "orange",
    ];
    let palettes = [
        Palette::Hot,
        Palette::Mem,
        Palette::Io,
        Palette::Wakeup,
        Palette::Java,
        Palette::Js,
        Palette::Perl,
        Palette::Red,
        Palette::Green,
        Palette::Blue,
        Palette::Aqua,
        Palette::Yellow,
        Palette::Purple,
        Palette::Orange,
    ];
    for (n, p) in names.iter().zip(palettes.iter()) {
        assert_eq!(palette_from_name(n.as_bytes()), Some(*p));
    }
    assert_eq!(palette_from_name(b"Hot"), None);
    assert_eq!(palette_from_name(b""), None);
    assert_eq!(palette_from_name(b"hott"), None);
}

#[test]
fn backgrounds_by_name() {
    assert_eq!(background_from_name(b"yellow"), Some(BackgroundColor::Yellow));
    assert_eq!(background_from_name(b"blue"), Some(BackgroundColor::Blue));
    assert_eq!(background_from_name(b"green"), Some(BackgroundColor::Green));
    assert_eq!(background_from_name(b"grey"), Some(BackgroundColor::Grey));
    assert_eq!(background_from_name(b"#0a1B2c"), Some(BackgroundColor::Flat(rgb(10, 27, 44))));
    assert_eq!(background_from_name(b"#ffffff"), Some(BackgroundColor::Flat(rgb(255, 255, 255))));
    assert_eq!(background_from_name(b"gray"), None);
    assert_eq!(background_from_name(b"#fff"), None);
    assert_eq!(background_from_name(b"#00000g"), None);
    assert_eq!(parse_hex_color(b"0a1b2c0"), None);
    assert_eq!(parse_hex_color(b"#000000"), Some(rgb(0, 0, 0)));
}
