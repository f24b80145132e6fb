use flamegraph::layout::{layout, scale, Rect};
use flamegraph::line::{parse_line, Annotation, Frame, StackLine};
use flamegraph::options::{Direction, Options};
use flamegraph::svg::{chars_that_fit, height_of, label_of, top_of};
use flamegraph::tree::{build, CallTree};

fn lines_of(text: &[&str]) -> Vec<StackLine> {
    text.iter().map(|l| parse_line(l.as_bytes()).unwrap().unwrap()).collect()
}

fn node(tree: &CallTree, path: &[&str]) -> usize {
    let frames: Vec<Frame> = path
        .iter()
        .map(|n| Frame { name: n.as_bytes().to_vec(), annotation: Annotation::Plain })
        .collect();
    tree.lookup(&frames).unwrap()
}

fn wide(width: u32) -> Options {
    let mut opts = Options::default();
    opts.image_width = width;
    opts.factor = 1000;
    opts
}

#[test]
fn widths_follow_the_share_of_samples() {
    let tree = build(&lines_of(&["a;b 5", "a;c 3", "a 2"])).ok().unwrap();
    let l = layout(&tree, &wide(1000));
    assert_eq!(l.levels, 2);
    assert_eq!(l.rects.len(), 3);
    let a = node(&tree, &["a"]);
    let b = node(&tree, &["a", "b"]);
    let c = node(&tree, &["a", "c"]);
    let rect = |n: usize| *l.rects.iter().find(|r| r.node == n).unwrap();
    assert_eq!(rect(a), Rect { node: a, depth: 0, x: 0, width: 1_000_000 });
    assert_eq!(rect(b), Rect { node: b, depth: 1, x: 0, width: 500_000 });
    assert_eq!(rect(c), Rect { node: c, depth: 1, x: 500_000, width: 300_000 });
    // what is left of `a` beside its children is its own share
    assert_eq!(rect(a).width - rect(b).width - rect(c).width, 200_000);
}

#[test]
fn the_scale_of_a_count() {
    assert_eq!(scale(5, 10, 1000, 1000), 500_000);
    assert_eq!(scale(1, 3, 1200, 1000), 400_000);
    assert_eq!(scale(1, 3, 1000, 1000), 333_333);
    assert_eq!(scale(1, 3, 1000, 2500), 833_333);
    assert_eq!(scale(0, 0, 1000, 1000), 0);
    assert_eq!(scale(u64::MAX, u64::MAX, u32::MAX, u32::MAX), 18446744065119617025);
}

#[test]
fn the_layout_does_not_depend_on_the_order_of_the_lines() {
    let text = ["m;z 4", "m;a 1", "b 3", "m;k;x 2", "m;k 1", "a 9"];
    let mut turned = text;
    turned.reverse();
    let one = build(&lines_of(&text)).ok().unwrap();
    let other = build(&lines_of(&turned)).ok().unwrap();
    let opts = wide(2000);
    let l1 = layout(&one, &opts);
    let l2 = layout(&other, &opts);
    for path in [&["a"][..], &["b"], &["m"], &["m", "a"], &["m", "k"], &["m", "k", "x"], &["m", "z"]] {
        let r1 = *l1.rects.iter().find(|r| r.node == node(&one, path)).unwrap();
        let r2 = *l2.rects.iter().find(|r| r.node == node(&other, path)).unwrap();
        assert_eq!((r1.depth, r1.x, r1.width), (r2.depth, r2.x, r2.width));
    }
    let at = |path: &[&str]| *l1.rects.iter().find(|r| r.node == node(&one, path)).unwrap();
    // 20 samples on 2000 pixels: 100 pixels each; `a` before `b` before `m`
    assert_eq!((at(&["a"]).x, at(&["a"]).width), (0, 900_000));
    assert_eq!((at(&["b"]).x, at(&["b"]).width), (900_000, 300_000));
    assert_eq!((at(&["m"]).x, at(&["m"]).width), (1_200_000, 800_000));
    assert_eq!((at(&["m", "a"]).x, at(&["m", "a"]).width), (1_200_000, 100_000));
    assert_eq!((at(&["m", "k"]).x, at(&["m", "k"]).width), (1_300_000, 300_000));
    assert_eq!((at(&["m", "k", "x"]).x, at(&["m", "k", "x"]).width), (1_300_000, 200_000));
    assert_eq!((at(&["m", "z"]).x, at(&["m", "z"]).width), (1_600_000, 400_000));
}

#[test]
fn a_node_below_the_least_width_has_no_rectangle_and_keeps_its_samples() {
    let tree = build(&lines_of(&["a;tiny 1", "a;wide 9999", "a;tiny;deep 1"])).ok().unwrap();
    let mut opts = wide(100);
    opts.min_width = 100;
    let l = layout(&tree, &opts);
    let a = node(&tree, &["a"]);
    let tiny = node(&tree, &["a", "tiny"]);
    let deep = node(&tree, &["a", "tiny", "deep"]);
    let wide_node = node(&tree, &["a", "wide"]);
    // 2 of 10001 samples on 100 pixels are 0.019 pixels
    assert!(l.rects.iter().all(|r| r.node != tiny && r.node != deep));
    assert_eq!(l.rects.len(), 2);
    assert_eq!(l.levels, 2);
    assert_eq!(tree.nodes[a].total, 10001);
    assert_eq!(tree.nodes[tiny].total, 2);
    // `wide` still stands right of `tiny`
    let w = *l.rects.iter().find(|r| r.node == wide_node).unwrap();
    assert_eq!(w.x, 19);
    assert_eq!(w.width, 99_980);
    // with no least width every node is drawn
    opts.min_width = 0;
    assert_eq!(layout(&tree, &opts).rects.len(), 4);
    assert_eq!(layout(&tree, &opts).levels, 3);
}

#[test]
fn an_empty_tree_has_no_rectangles() {
    let l = layout(&CallTree::new(), &Options::default());
    assert_eq!(l.rects.len(), 0);
    assert_eq!(l.levels, 0);
}

#[test]
fn the_height_of_the_image_and_the_rows_of_the_frames() {
    let mut opts = Options::default();
    // (3 levels + 2 rows above) * 16 + 2 * 12 + 10
    assert_eq!(height_of(&opts, 3), 114);
    assert_eq!(top_of(&opts, 3, 0), 64);
    assert_eq!(top_of(&opts, 3, 2), 32);
    opts.direction = Direction::Inverted;
    assert_eq!(top_of(&opts, 3, 0), 32);
    assert_eq!(top_of(&opts, 3, 2), 64);
    opts.subtitle = Some(b"sub".to_vec());
    assert_eq!(height_of(&opts, 3), 130);
    assert_eq!(top_of(&opts, 3, 0), 48);
}

#[test]
fn labels_are_cut_to_the_width_of_the_frame() {
    let opts = Options::default();
    // a character is 12 * 0.59 = 7.08 pixels wide
    assert_eq!(chars_that_fit(&opts, 100_000), 14);
    assert_eq!(chars_that_fit(&opts, 21_239), 2);
    assert_eq!(chars_that_fit(&opts, 21_240), 3);
    assert_eq!(label_of(b"a_long_function_name", 14), b"a_long_funct..".to_vec());
    assert_eq!(label_of(b"short", 14), b"short".to_vec());
    assert_eq!(label_of(b"short", 5), b"short".to_vec());
    assert_eq!(label_of(b"short", 4), b"sh..".to_vec());
    assert_eq!(label_of(b"short", 2), b"".to_vec());
    // a character of two bytes is not cut in two
    assert_eq!(label_of("aé_bcd".as_bytes(), 4), b"a..".to_vec());
    let mut none = Options::default();
    none.font_size = 0;
    assert_eq!(chars_that_fit(&none, 100_000), 0);
}
