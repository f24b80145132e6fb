use flamegraph::attrs::{AttrsError, FuncFrameAttrsMap};

fn listed(m: &FuncFrameAttrsMap) -> Vec<(String, Vec<(String, String)>)> {
    m.entries
        .iter()
        .map(|e| {
            (
                String::from_utf8(e.name.clone()).unwrap(),
                e.attributes
                    .iter()
                    .map(|a| {
                        (
                            String::from_utf8(a.key.clone()).unwrap(),
                            String::from_utf8(a.value.clone()).unwrap(),
                        )
                    })
                    .collect(),
            )
        })
        .collect()
}

#[test]
fn reading_attributes() {
    let m = FuncFrameAttrsMap::load(
        b"main\tclass=hot\txlink:href=http://example.com/?a=b\n\nfoo bar\tdata-x=\n",
    )
    .ok()
    .unwrap();
    assert_eq!(
        listed(&m),
        vec![
            (
                "main".to_string(),
                vec![
                    ("class".to_string(), "hot".to_string()),
                    ("xlink:href".to_string(), "http://example.com/?a=b".to_string()),
                ]
            ),
            ("foo bar".to_string(), vec![("data-x".to_string(), "".to_string())]),
        ]
    );
    assert_eq!(m.find(b"main"), Some(0));
    assert_eq!(m.find(b"foo bar"), Some(1));
    assert_eq!(m.find(b"foo"), None);
    assert_eq!(FuncFrameAttrsMap::load(b"").ok().unwrap().entries.len(), 0);
}

#[test]
fn the_first_entry_of_a_name_holds() {
    let m = FuncFrameAttrsMap::load(b"f\ta=1\nf\ta=2\n").ok().unwrap();
    assert_eq!(m.find(b"f"), Some(0));
}

#[test]
fn a_text_that_writes_no_attributes() {
    assert_eq!(FuncFrameAttrsMap::load(b"main\n").err(), Some(AttrsError { line: 1 }));
    assert_eq!(FuncFrameAttrsMap::load(b"a\tk=v\nmain\tnovalue\n").err(), Some(AttrsError { line: 2 }));
    assert_eq!(FuncFrameAttrsMap::load(b"main\t=v\n").err(), Some(AttrsError { line: 1 }));
    assert_eq!(FuncFrameAttrsMap::load(b"main\tbad key=v\n").err(), Some(AttrsError { line: 1 }));
    assert_eq!(FuncFrameAttrsMap::load(b"main\tk=v\t\n").err(), Some(AttrsError { line: 1 }));
}
