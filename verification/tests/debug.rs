use pi_world::debug::{assert_archetype_arr, find_text, ArchetypeDebug, ArchetypeView, ColumnDebug, ColumnView};

fn shown() -> Vec<ArchetypeView> {
    vec![
        ArchetypeView {
            len: 2,
            columns: vec![ColumnView { name: "pi_world::example::Age0".to_string(), change_listeners: 1 }],
            removes: 0,
        },
        ArchetypeView { len: 0, columns: Vec::new(), removes: 3 },
    ]
}

fn expect(entitys: usize, name: &str, listeners: usize) -> Vec<Option<ArchetypeDebug>> {
    vec![
        Some(ArchetypeDebug {
            entitys: Some(entitys),
            columns_info: vec![Some(ColumnDebug { change_listeners: listeners, name: Some(name.to_string()) })],
            destroys_listeners: None,
            removes: Some(0),
        }),
        None,
    ]
}

#[test]
fn text_search() {
    assert!(find_text("pi_world::Age0", "Age0"));
    assert!(find_text("abc", ""));
    assert!(!find_text("Age", "Age0"));
    assert!(!find_text("abcabd", "abe"));
    assert!(find_text("abcabd", "abd"));
}

#[test]
fn archetypes_match_their_expectations() {
    let s = shown();
    assert!(assert_archetype_arr(&s, &Vec::new()));
    assert!(assert_archetype_arr(&s, &expect(2, "Age0", 1)));
    assert!(!assert_archetype_arr(&s, &expect(3, "Age0", 1)));
    assert!(!assert_archetype_arr(&s, &expect(2, "Age1", 1)));
    assert!(!assert_archetype_arr(&s, &expect(2, "Age0", 0)));
    // when archetypes are listed, all of them must be
    let mut short = expect(2, "Age0", 1);
    short.pop();
    assert!(!assert_archetype_arr(&s, &short));
    // the removal count is checked too
    let mut removes = expect(2, "Age0", 1);
    removes[1] = Some(ArchetypeDebug { entitys: None, columns_info: Vec::new(), destroys_listeners: None, removes: Some(3) });
    assert!(assert_archetype_arr(&s, &removes));
    removes[1] = Some(ArchetypeDebug { entitys: None, columns_info: Vec::new(), destroys_listeners: None, removes: Some(2) });
    assert!(!assert_archetype_arr(&s, &removes));
}
