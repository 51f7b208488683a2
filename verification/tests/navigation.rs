use hephaestus::navigation::{lookup, Definition, DefinitionKind, Lookup};

fn local(start: usize, end: usize, visible_from: usize) -> Definition {
    Definition {
        start,
        end,
        kind: DefinitionKind::Local,
        member: false,
        scope: 0,
        depth: 1,
        visible_from,
    }
}

#[test]
fn locals_follow_scope_and_shadowing() {
    let source = "let x = 1;\nlet x = x;\nx";
    let definitions = [local(4, 5, 10), local(15, 16, 21)];
    assert_eq!(lookup(source, &definitions, 22, 23, false, &[0]), Some(Lookup::Found(15, 16)));
    assert_eq!(lookup(source, &definitions, 19, 20, false, &[0]), Some(Lookup::Found(4, 5)));
    assert_eq!(lookup(source, &definitions, 4, 5, false, &[0]), None);
    assert_eq!(
        lookup(source, &definitions, 22, 23, false, &[7]),
        Some(Lookup::Search {
            name: "x".into(),
            member: false,
            fallback: None
        })
    );
}

#[test]
fn imports_search_the_workspace_first() {
    let source = "use a::b;\nb()";
    let import = Definition {
        kind: DefinitionKind::Import,
        ..local(7, 8, 0)
    };
    let definitions = [import];
    assert_eq!(
        lookup(source, &definitions, 10, 11, false, &[0]),
        Some(Lookup::Search {
            name: "b".into(),
            member: false,
            fallback: Some((7, 8))
        })
    );
    assert_eq!(
        lookup(source, &definitions, 7, 8, false, &[0]),
        Some(Lookup::Search {
            name: "b".into(),
            member: false,
            fallback: None
        })
    );
}

#[test]
fn members_skip_locals_and_items_answer_from_anywhere() {
    let source = "let f = 1;\nstruct S { f: u8 }\ns.f";
    let field = Definition {
        kind: DefinitionKind::Item,
        member: true,
        scope: 9,
        ..local(22, 23, 0)
    };
    let definitions = [local(4, 5, 10), field];
    assert!(!field.accepts(false));
    assert!(field.accepts(true));
    assert!(!local(0, 1, 0).accepts(true));
    assert_eq!(lookup(source, &definitions, 32, 33, true, &[0]), Some(Lookup::Found(22, 23)));
    assert_eq!(lookup(source, &definitions, 32, 33, false, &[0]), Some(Lookup::Found(4, 5)));
}
