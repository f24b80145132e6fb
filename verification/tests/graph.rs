use flamegraph::color::{Color, Palette, RandomSource};
use flamegraph::attrs::FuncFrameAttrsMap;
use flamegraph::graph::{from_lines, from_sources, merge_source, merge_sources, Error, Graph, Origin};
use flamegraph::line::{parse_line, LineError, StackLine};
use flamegraph::options::{Direction, Options};
use flamegraph::paint::Strategy;
use flamegraph::palette_map::PaletteMap;
use flamegraph::tree::CallTree;
use flamegraph::svg::SCRIPT;

fn hashed() -> Options {
    let mut opts = Options::default();
    opts.hash = true;
    opts.image_width = 1000;
    opts.no_javascript = true;
    opts
}

fn draw(opts: &Options, text: &str) -> Graph {
    from_sources(opts, &[text.as_bytes().to_vec()], None, &mut RandomSource::new(1)).ok().unwrap()
}

fn svg_of(g: &Graph) -> String {
    String::from_utf8(g.svg.clone()).unwrap()
}

fn color_of(g: &Graph, name: &[u8]) -> Color {
    let k = g.layout.rects.iter().position(|r| g.tree.nodes[r.node].name == name).unwrap();
    g.colors[k]
}

#[test]
fn the_whole_image_of_three_lines() {
    let g = draw(&hashed(), "a;b 5\na;c 3\na 2\n");
    let expected = concat_all(&[
        "<?xml version=\"1.0\" standalone=\"no\"?>",
        "<svg version=\"1.1\" width=\"1000\" height=\"98\" viewBox=\"0 0 1000 98\" xmlns=\"http://www.w3.org/2000/svg\">",
        "<desc></desc>",
        "<defs><linearGradient id=\"background\" y1=\"0\" y2=\"1\" x1=\"0\" x2=\"0\"><stop stop-color=\"rgb(238,238,238)\" offset=\"5%\"/><stop stop-color=\"rgb(238,238,176)\" offset=\"95%\"/></linearGradient></defs>",
        "<style type=\"text/css\">text{font-family:Verdana;font-size:12px;fill:rgb(0,0,0);}.frame:hover{stroke:black;stroke-width:0.5;cursor:pointer;}.hide{display:none;}</style>",
        "<rect x=\"0\" y=\"0\" width=\"1000\" height=\"98\" fill=\"url(#background)\"/>",
        "<text id=\"title\" text-anchor=\"middle\" x=\"500\" y=\"16\" style=\"font-size:17px\">Flame Graph</text>",
        "<text id=\"details\" data-nametype=\"Function:\" x=\"10\" y=\"81\"> </text>",
        "<text id=\"unzoom\" class=\"hide\" x=\"10\" y=\"16\">Reset Zoom</text>",
        "<text id=\"search\" text-anchor=\"end\" x=\"1000\" y=\"16\">Search</text>",
        "<text id=\"matched\" text-anchor=\"end\" x=\"1000\" y=\"81\"> </text>",
        "<g id=\"frames\">",
        "<g class=\"frame\" data-path=\"a\" data-samples=\"10\"><title>a (10 samples, 100.00%)</title><rect x=\"0.000\" y=\"48\" width=\"1000.000\" height=\"16\" fill=\"rgb(235,140,33)\"/><text x=\"3.000\" y=\"62\">a</text></g>",
        "<g class=\"frame\" data-path=\"a;b\" data-samples=\"5\"><title>b (5 samples, 50.00%)</title><rect x=\"0.000\" y=\"32\" width=\"500.000\" height=\"16\" fill=\"rgb(232,127,30)\"/><text x=\"3.000\" y=\"46\">b</text></g>",
        "<g class=\"frame\" data-path=\"a;c\" data-samples=\"3\"><title>c (3 samples, 30.00%)</title><rect x=\"500.000\" y=\"32\" width=\"300.000\" height=\"16\" fill=\"rgb(230,115,27)\"/><text x=\"503.000\" y=\"46\">c</text></g>",
        "</g>",
        "</svg>",
    ]);
    assert_eq!(svg_of(&g), expected);
    assert_eq!(g.strategy, Strategy::Hashed);
    assert!(g.palette_map.is_none());
}

fn concat_all(parts: &[&str]) -> String {
    parts.concat()
}

#[test]
fn one_element_on_each_line_is_all_that_pretty_changes() {
    let text = "a;b 5\na;c 3\na 2\nd<e> 4\n";
    let mut opts = hashed();
    opts.no_javascript = false;
    opts.notes = b"made \"for\" a test & more".to_vec();
    let plain = svg_of(&draw(&opts, text));
    opts.pretty_xml = true;
    let pretty = svg_of(&draw(&opts, text));
    assert!(!plain.contains('\n'));
    assert_eq!(pretty.matches('\n').count(), 19);
    assert_eq!(pretty.replace('\n', ""), plain);
    assert!(pretty.ends_with("</g>\n</svg>\n"));
    assert!(plain.contains("<desc>made &quot;for&quot; a test &amp; more</desc>"));
    let script = SCRIPT.replace('&', "&amp;").replace('<', "&lt;").replace('>', "&gt;");
    assert!(!SCRIPT.contains('"') && !SCRIPT.contains('\n'));
    assert!(plain.contains(&format!("<script type=\"text/ecmascript\">{}</script>", script)));
    assert!(plain.contains(" onload=\"init(evt)\""));
    assert!(plain.contains("data-path=\"d&lt;e&gt;\""));
    assert!(plain.contains("<title>d&lt;e&gt; (4 samples, 28.57%)</title>"));
}

#[test]
fn an_icicle_graph_grows_downwards() {
    let mut opts = hashed();
    opts.direction = Direction::Inverted;
    opts.title = b"Icicle Graph".to_vec();
    opts.subtitle = Some(b"under".to_vec());
    let svg = svg_of(&draw(&opts, "a;b 1\n"));
    // three rows above the frames: the frames of level 0 start at 48
    assert!(svg.contains("<rect x=\"0.000\" y=\"48\" width=\"1000.000\" height=\"16\" fill=\"rgb(235,140,33)\"/>"));
    assert!(svg.contains("<rect x=\"0.000\" y=\"64\" width=\"1000.000\" height=\"16\" fill=\"rgb(232,127,30)\"/>"));
    assert!(svg.contains("<text id=\"subtitle\" text-anchor=\"middle\" x=\"500\" y=\"32\">under</text>"));
    assert!(svg.contains(">Icicle Graph</text>"));
    assert!(svg.contains("height=\"114\""));
}

#[test]
fn the_same_name_has_the_same_color_in_two_runs_with_a_palette_map() {
    let mut opts = Options::default();
    opts.image_width = 1000;
    let text = vec![b"x;y 100".to_vec()];
    let first = from_sources(&opts, &text, Some(PaletteMap::new()), &mut RandomSource::new(7)).ok().unwrap();
    let second = from_sources(&opts, &text, Some(PaletteMap::new()), &mut RandomSource::new(99)).ok().unwrap();
    assert_eq!(first.strategy, Strategy::Consistent);
    assert_eq!(color_of(&first, b"y"), color_of(&second, b"y"));
    assert_eq!(color_of(&first, b"y"), Color { r: 252, g: 217, b: 51 });
    let kept = first.palette_map.unwrap();
    assert_eq!(kept.entries.iter().filter(|e| e.name == b"y").count(), 1);
    assert_eq!(kept.save(), b"x\trgb(255,230,55)\ny\trgb(252,217,51)\n".to_vec());
    assert_eq!(second.palette_map.unwrap().save(), kept.save());
    // a third run starts from what the first wrote, with another palette
    opts.colors = Palette::Blue;
    let read = PaletteMap::load(&kept.save()).ok().unwrap();
    let third = from_sources(&opts, &[b"x;y 1\nx;z 1\n".to_vec()], Some(read), &mut RandomSource::new(3)).ok().unwrap();
    assert_eq!(color_of(&third, b"y"), Color { r: 252, g: 217, b: 51 });
    assert_eq!(color_of(&third, b"x"), Color { r: 255, g: 230, b: 55 });
    let z = color_of(&third, b"z");
    let after = third.palette_map.unwrap();
    assert_eq!(after.len(), 3);
    assert_eq!(after.get(b"z"), Some(z));
}

#[test]
fn a_differential_graph_is_colored_by_the_change() {
    let mut opts = hashed();
    let text = "a;grew 10 20\na;shrank 10 5\na;same 10 10\n";
    let g = draw(&opts, text);
    assert_eq!(g.strategy, Strategy::Differential { max: 10, negate: false });
    assert_eq!(color_of(&g, b"grew"), Color { r: 255, g: 0, b: 0 });
    assert_eq!(color_of(&g, b"shrank"), Color { r: 105, g: 105, b: 255 });
    assert_eq!(color_of(&g, b"same"), Color { r: 255, g: 255, b: 255 });
    assert_eq!(color_of(&g, b"a"), Color { r: 255, g: 105, b: 105 });
    assert!(svg_of(&g).contains("<title>grew (10 samples, 33.33%; +100.00%)</title>"));
    assert!(svg_of(&g).contains("<title>shrank (10 samples, 33.33%; -50.00%)</title>"));
    assert!(svg_of(&g).contains("<title>same (10 samples, 33.33%; 0.00%)</title>"));
    opts.negate_differentials = true;
    let n = draw(&opts, text);
    assert_eq!(color_of(&n, b"grew"), Color { r: 0, g: 0, b: 255 });
    assert_eq!(color_of(&n, b"shrank"), Color { r: 255, g: 105, b: 105 });
    assert_eq!(color_of(&n, b"same"), Color { r: 255, g: 255, b: 255 });
}

#[test]
fn a_separator_is_grey_whatever_the_colors_are() {
    let g = draw(&hashed(), "a;-;b 1\n");
    assert_eq!(color_of(&g, b"-"), Color { r: 160, g: 160, b: 160 });
    let d = draw(&hashed(), "a;-;b 1 5\n");
    assert_eq!(color_of(&d, b"-"), Color { r: 160, g: 160, b: 160 });
    let mut opts = Options::default();
    opts.hash = false;
    let r = draw(&opts, "a;-;b 1\n");
    assert_eq!(r.strategy, Strategy::Random);
    assert_eq!(color_of(&r, b"-"), Color { r: 160, g: 160, b: 160 });
}

#[test]
fn random_colors_follow_the_seed() {
    let opts = Options::default();
    let text = vec![b"f 1".to_vec()];
    let mut source = RandomSource::new(1);
    let g = from_sources(&opts, &text, None, &mut source).ok().unwrap();
    assert_eq!(g.colors, vec![Color { r: 217, g: 102, b: 40 }]);
    assert_eq!(source.state, 435306125);
    let again = from_sources(&opts, &text, None, &mut RandomSource::new(1)).ok().unwrap();
    assert_eq!(again.svg, g.svg);
}

#[test]
fn lines_from_several_sources_are_merged() {
    let opts = hashed();
    let whole = draw(&opts, "a;b 5\na;c 3\na 2\nd 1\n");
    let parts = from_sources(
        &opts,
        &[b"d 1\na 2".to_vec(), b"".to_vec(), b"a;c 3\n\na;b 5\n".to_vec()],
        None,
        &mut RandomSource::new(1),
    )
    .ok()
    .unwrap();
    assert_eq!(parts.tree.nodes[0].total, 11);
    // the nodes stand at other places in the tree, and the image is the same
    assert!(whole.tree.nodes[1].name != parts.tree.nodes[1].name);
    assert_eq!(svg_of(&whole), svg_of(&parts));
    assert_eq!(whole.colors, parts.colors);
    assert_eq!(whole.layout.rects.len(), 4);
}

#[test]
fn the_image_does_not_depend_on_the_order_of_the_lines() {
    let text = ["m;z 4", "m;a 1", "b 3", "m;k;x 2", "m;k 1", "a 9", "m;a_[k] 2", "m;k;x;y 1"];
    let mut turned = text;
    turned.reverse();
    let mut mixed = text;
    mixed.swap(0, 5);
    mixed.swap(2, 7);
    for opts in [hashed(), Options::default()] {
        let one = draw(&opts, &text.join("\n"));
        let two = draw(&opts, &turned.join("\n"));
        let three = draw(&opts, &mixed.join("\n"));
        assert_eq!(svg_of(&one), svg_of(&two));
        assert_eq!(svg_of(&one), svg_of(&three));
        let with_map = |t: &[&str]| {
            from_sources(&opts, &[t.join("\n").into_bytes()], Some(PaletteMap::new()), &mut RandomSource::new(5))
                .ok()
                .unwrap()
        };
        let (a, b) = (with_map(&text), with_map(&turned));
        assert_eq!(a.svg, b.svg);
        assert_eq!(a.palette_map.unwrap().save(), b.palette_map.unwrap().save());
    }
    // the frames come from left to right, each before what stands on it
    let g = draw(&hashed(), &turned.join("\n"));
    let paths: Vec<String> = g
        .layout
        .rects
        .iter()
        .map(|r| {
            let mut names = Vec::new();
            let mut at = r.node;
            while at != 0 {
                names.push(String::from_utf8(g.tree.nodes[at].name.clone()).unwrap());
                at = g.tree.nodes[at].parent;
            }
            names.reverse();
            names.join(";")
        })
        .collect();
    assert_eq!(paths, vec!["a", "b", "m", "m;a", "m;a", "m;k", "m;k;x", "m;k;x;y", "m;z"]);
}

#[test]
fn a_line_that_is_no_sample_line_ends_the_run() {
    let opts = hashed();
    let r = from_sources(
        &opts,
        &[b"a 1\n".to_vec(), b"b 2\n\n  c;d oops \ne 3\n".to_vec()],
        None,
        &mut RandomSource::new(1),
    );
    match r {
        Err(Error::InputFormat { origin, content, reason }) => {
            assert_eq!(origin, Origin { source: 1, line: 3 });
            assert_eq!(content, b"  c;d oops ".to_vec());
            assert_eq!(reason, LineError::InvalidCount);
        }
        _ => panic!("the run went on"),
    }
    let r = from_sources(&opts, &[b"a 1\nb 0\n".to_vec()], None, &mut RandomSource::new(1));
    assert!(matches!(
        r,
        Err(Error::InputFormat { origin: Origin { source: 0, line: 2 }, reason: LineError::ZeroCount, .. })
    ));
    let r = from_sources(&opts, &[b"lonely\n".to_vec()], None, &mut RandomSource::new(1));
    assert!(matches!(r, Err(Error::InputFormat { reason: LineError::MissingCount, .. })));
    let r = from_sources(&opts, &[b"7\n".to_vec()], None, &mut RandomSource::new(1));
    assert!(matches!(r, Err(Error::InputFormat { reason: LineError::EmptyStack, .. })));
}

#[test]
fn lines_with_and_without_a_second_count_do_not_mix() {
    let opts = hashed();
    let r = from_sources(
        &opts,
        &[b"a 1 2\n".to_vec(), b"\nb 2 3\nc 4\n".to_vec()],
        None,
        &mut RandomSource::new(1),
    );
    assert!(matches!(r, Err(Error::InconsistentInput { origin: Origin { source: 1, line: 3 } })));
}

#[test]
fn samples_beyond_64_bits_end_the_run() {
    let opts = hashed();
    let r = from_sources(
        &opts,
        &[b"a 18446744073709551615\nb 1\n".to_vec()],
        None,
        &mut RandomSource::new(1),
    );
    assert!(matches!(r, Err(Error::TooManySamples { origin: Origin { source: 0, line: 2 } })));
}

#[test]
fn no_lines_give_an_image_without_frames() {
    let g = draw(&hashed(), "\n  \n");
    assert_eq!(g.layout.rects.len(), 0);
    assert!(svg_of(&g).ends_with("<g id=\"frames\"></g></svg>"));
    assert!(svg_of(&g).contains("height=\"66\""));
}

#[test]
fn lines_that_are_read_already() {
    let lines: Vec<StackLine> =
        ["a;b 5", "a 2"].iter().map(|l| parse_line(l.as_bytes()).unwrap().unwrap()).collect();
    let g = from_lines(&hashed(), &lines, None, &mut RandomSource::new(1)).ok().unwrap();
    assert_eq!(svg_of(&g), svg_of(&draw(&hashed(), "a;b 5\na 2")));
}

#[test]
fn frames_get_the_attributes_of_their_function() {
    let mut opts = hashed();
    opts.func_frameattrs =
        FuncFrameAttrsMap::load(b"b\tclass=hot\tdata-note=say \"hi\" & <go>\n").ok().unwrap();
    let svg = svg_of(&draw(&opts, "a;b 5\n"));
    assert!(svg.contains(
        "<g class=\"frame hot\" data-path=\"a;b\" data-samples=\"5\" data-note=\"say &quot;hi&quot; &amp; &lt;go&gt;\"><title>"
    ));
    assert!(svg.contains("<g class=\"frame\" data-path=\"a\" data-samples=\"5\"><title>"));
}

#[test]
fn attributes_that_the_frame_has_of_its_own_are_not_written_twice() {
    let mut opts = hashed();
    opts.func_frameattrs = FuncFrameAttrsMap::load(
        b"b\tdata-path=x\tid=one\tclass=first\tid=two\tdata-samples=9\tclass=second\n",
    )
    .ok()
    .unwrap();
    let svg = svg_of(&draw(&opts, "a;b 5\n"));
    assert!(svg.contains(
        "<g class=\"frame first\" data-path=\"a;b\" data-samples=\"5\" id=\"one\"><title>"
    ));
}

#[test]
fn tags_stand_in_the_path_and_not_in_the_name() {
    let svg = svg_of(&draw(&hashed(), "a_[k];b_[j] 5\n"));
    assert!(svg.contains("data-path=\"a_[k];b_[j]\" data-samples=\"5\"><title>b (5 samples, 100.00%)</title>"));
    assert!(svg.contains(">a</text>"));
}

#[test]
fn narrow_frames_have_short_labels_or_none() {
    let mut opts = hashed();
    opts.image_width = 100;
    let svg = svg_of(&draw(&opts, "a_long_function_name;x 1\na_long_function_name;another_long_name 3\n"));
    // 100 pixels hold 14 characters, 75 pixels hold 10, 25 pixels hold 3
    assert!(svg.contains(">a_long_funct..</text>"));
    assert!(svg.contains("<text x=\"3.000\" y=\"46\">another_..</text>"));
    assert!(svg.contains("<text x=\"78.000\" y=\"46\">x</text>"));
}

#[test]
fn what_an_error_says() {
    let bad = Error::InputFormat {
        origin: Origin { source: 1, line: 3 },
        content: b"c;d oops".to_vec(),
        reason: LineError::InvalidCount,
    };
    assert_eq!(
        bad.message(),
        b"source 1, line 3: the count is not a number in range: c;d oops".to_vec()
    );
    assert_eq!(
        Error::InconsistentInput { origin: Origin { source: 0, line: 12 } }.message(),
        b"source 0, line 12: some lines have a second count and others have none".to_vec()
    );
    assert_eq!(
        Error::TooManySamples { origin: Origin { source: 2, line: 1 } }.message(),
        b"source 2, line 1: the samples no longer fit in 64 bits".to_vec()
    );
    assert_eq!(LineError::MissingCount.message(), "the line has no count");
    assert_eq!(LineError::EmptyStack.message(), "the line has no stack");
    assert_eq!(LineError::ZeroCount.message(), "the count is zero");
}

#[test]
fn sources_are_merged_line_by_line() {
    let mut tree = CallTree::new();
    assert!(merge_source(&mut tree, b"a;b 1\na;c 2\n", 0).is_ok());
    let places: Vec<(Vec<u8>, usize)> =
        tree.nodes.iter().map(|n| (n.name.clone(), n.parent)).collect();
    assert!(merge_source(&mut tree, b"a;a 4\nz 1\na;b;x 1", 1).is_ok());
    assert_eq!(tree.nodes.len(), 7);
    assert_eq!(tree.nodes[0].total, 9);
    // the nodes that were there stay where they were
    for (i, (name, parent)) in places.iter().enumerate() {
        assert_eq!((&tree.nodes[i].name, tree.nodes[i].parent), (name, *parent));
    }
    // the first bad line ends the run, and the lines before it are merged
    assert!(matches!(
        merge_source(&mut tree, b"q 1\nq 1 1\nq 1\n", 2),
        Err(Error::InconsistentInput { origin: Origin { source: 2, line: 2 } })
    ));
    assert_eq!(tree.nodes[0].total, 10);
    let merged = merge_sources(&[b"a;b 1".to_vec(), b"a;b 2\n".to_vec()]).ok().unwrap();
    assert_eq!(merged.nodes.len(), 3);
    assert_eq!(merged.nodes[2].total, 3);
}

/// Reads a document and says what is wrong with its form, if anything: tags
/// that do not match, an attribute twice in one tag, a `<` or a `&` where
/// none may stand.
fn form_of(doc: &str) -> Result<usize, String> {
    fn text_ok(t: &str) -> bool {
        let mut rest = t;
        while let Some(at) = rest.find('&') {
            let after = &rest[at..];
            let known = ["&amp;", "&lt;", "&gt;", "&quot;", "&#10;"];
            match known.iter().find(|k| after.starts_with(**k)) {
                Some(k) => rest = &after[k.len()..],
                None => return false,
            }
        }
        !t.contains('<')
    }
    let mut open: Vec<String> = Vec::new();
    let mut elements = 0;
    let mut roots = 0;
    let mut rest = doc;
    while !rest.is_empty() {
        if let Some(stripped) = rest.strip_prefix("<?") {
            let end = stripped.find("?>").ok_or("declaration without end")?;
            rest = &stripped[end + 2..];
        } else if let Some(stripped) = rest.strip_prefix("</") {
            let end = stripped.find('>').ok_or("tag without end")?;
            let name = &stripped[..end];
            if open.pop().as_deref() != Some(name) {
                return Err(format!("</{}> closes another element", name));
            }
            rest = &stripped[end + 1..];
        } else if let Some(stripped) = rest.strip_prefix('<') {
            let name_end = stripped.find(|c: char| c == ' ' || c == '>' || c == '/').ok_or("tag without end")?;
            let name = &stripped[..name_end];
            if name.is_empty() {
                return Err("tag without name".to_string());
            }
            let mut inner = &stripped[name_end..];
            let mut seen: Vec<&str> = Vec::new();
            let below = open.len();
            loop {
                if let Some(r) = inner.strip_prefix("/>") {
                    inner = r;
                    break;
                }
                if let Some(r) = inner.strip_prefix('>') {
                    open.push(name.to_string());
                    inner = r;
                    break;
                }
                let r = inner.strip_prefix(' ').ok_or(format!("no space before an attribute of <{}>", name))?;
                let eq = r.find("=\"").ok_or("attribute without value")?;
                let key = &r[..eq];
                if key.is_empty() || key.contains(|c: char| c == ' ' || c == '<' || c == '>' || c == '"') {
                    return Err(format!("bad key {:?}", key));
                }
                if seen.contains(&key) {
                    return Err(format!("{} twice in <{}>", key, name));
                }
                seen.push(key);
                let value_end = r[eq + 2..].find('"').ok_or("value without end")?;
                if !text_ok(&r[eq + 2..eq + 2 + value_end]) {
                    return Err(format!("bad value of {}", key));
                }
                inner = &r[eq + 2 + value_end + 1..];
            }
            elements += 1;
            if below == 0 {
                roots += 1;
            }
            rest = inner;
        } else {
            let end = rest.find('<').unwrap_or(rest.len());
            if !text_ok(&rest[..end]) {
                return Err(format!("bad text {:?}", &rest[..end]));
            }
            if open.is_empty() && !rest[..end].trim().is_empty() {
                return Err("text outside the root".to_string());
            }
            rest = &rest[end..];
        }
    }
    if !open.is_empty() {
        return Err(format!("<{}> is not closed", open[open.len() - 1]));
    }
    if roots != 1 {
        return Err(format!("{} roots", roots));
    }
    Ok(elements)
}

#[test]
fn the_checker_of_form_knows_bad_documents() {
    assert_eq!(form_of("<a><b x=\"1\" y=\"&lt;\"/>t &amp; u</a>"), Ok(2));
    assert!(form_of("<a><b></a></b>").is_err());
    assert!(form_of("<a x=\"1\" x=\"2\"/>").is_err());
    assert!(form_of("<a>&</a>").is_err());
    assert!(form_of("<a x=\"<\"/>").is_err());
    assert!(form_of("<a>").is_err());
    assert!(form_of("<a/><b/>").is_err());
}

#[test]
fn the_image_is_a_document_of_good_form() {
    let mut opts = Options::default();
    opts.hash = true;
    opts.subtitle = Some(b"sub <title> & more".to_vec());
    opts.notes = b"notes -- with \"dashes\" <!-- and more".to_vec();
    opts.title = b"a > b && c < \"d\"\nnext".to_vec();
    opts.font_type = b"\"Times\" <serif>".to_vec();
    opts.name_type = b"<Name>:".to_vec();
    opts.count_name = b"\"samples\" & more".to_vec();
    opts.func_frameattrs = FuncFrameAttrsMap::load(
        b"b\tclass=frame hot\tdata-note=x\ttitle=\"<&>\"\tclass=two\tdata-path=p\tdata-note=y\n",
    )
    .ok()
    .unwrap();
    let text = b"a;b 5 7\na;c<int>_[k] 3 1\na 2 2\nd;e;f \"q\" 1 1\n&;<;>;\";';]]> 4 4\n-;a;- 1 1\n";
    for pretty in [false, true] {
        for no_javascript in [false, true] {
            opts.pretty_xml = pretty;
            opts.no_javascript = no_javascript;
            let g = from_sources(&opts, &[text.to_vec()], None, &mut RandomSource::new(1)).ok().unwrap();
            let svg = svg_of(&g);
            // the root, the description, the background with its two colors,
            // the style, the backdrop, six texts and the group of the frames
            let fixed = if no_javascript { 15 } else { 16 };
            assert_eq!(form_of(&svg), Ok(fixed + 4 * g.layout.rects.len()));
            assert_eq!(g.layout.rects.len(), 15);
        }
    }
}
