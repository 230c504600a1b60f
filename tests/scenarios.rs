use smodel::host::{Diagnostic, Fragment, SModelHost};
use smodel::pipeline::smodel;
use smodel::runtime::Runtime;
use smodel::tree::{Delimiter, FnInput, Meaning, MeaningConstructor, MeaningField, MeaningMethod, Token};
use smodel::SModelError;

fn s(x: &str) -> String {
    x.to_string()
}

fn self_ref() -> FnInput {
    FnInput::Receiver { has_attributes: false, is_reference: true, has_lifetime: false, is_mutable: false }
}

fn typed(name: &str, ty: &str) -> FnInput {
    FnInput::Typed { name: Some(s(name)), pattern: s(name), type_annotation: s(ty) }
}

fn method(name: &str, is_override: bool, body: Vec<Token>) -> MeaningMethod {
    MeaningMethod {
        attributes: vec![],
        doc: None,
        inherit_doc: false,
        visibility: s("pub"),
        is_override,
        name: s(name),
        inputs: vec![self_ref()],
        result_type: Some(s("String")),
        statements: body,
    }
}

fn literal_body(text: &str) -> Vec<Token> {
    vec![Token::Literal(format!("{:?}", text)), Token::Punct('.'), Token::Ident(s("into")), Token::Open(Delimiter::Parenthesis), Token::Close(Delimiter::Parenthesis)]
}

fn super_body(name: &str) -> Vec<Token> {
    vec![
        Token::Ident(s("super")),
        Token::Punct('.'),
        Token::Ident(s(name)),
        Token::Open(Delimiter::Parenthesis),
        Token::Close(Delimiter::Parenthesis),
    ]
}

fn field(name: &str, ty: &str, default: &str) -> MeaningField {
    MeaningField { is_ref: false, name: s(name), type_annotation: s(ty), default_value: s(default) }
}

fn meaning(name: &str, inherits: Option<&str>, fields: Vec<MeaningField>, methods: Vec<MeaningMethod>) -> Meaning {
    Meaning {
        attributes: vec![],
        visibility: s("pub"),
        name: s(name),
        inherits: inherits.map(s),
        fields,
        constructor: Some(MeaningConstructor {
            attributes: vec![],
            visibility: s("pub"),
            inputs: vec![],
            super_arguments: vec![],
            statements: String::new(),
        }),
        methods,
    }
}

fn meaning_id(host: &SModelHost, name: &str) -> usize {
    host.table.find_meaning(&s(name)).unwrap()
}

fn meaning_name_of_method(host: &SModelHost, m: usize) -> String {
    host.table.meanings.get(host.table.methods.get(m).defined_in).name.clone()
}

fn method_of(host: &SModelHost, meaning: &str, name: &str) -> usize {
    host.table.lookup_method(meaning_id(host, meaning), &s(name)).unwrap()
}

/// Base{x: 0, m} -> Mid{overrides m} -> Leaf{overrides m}, and Other, a sibling of Mid.
fn chain_nodes() -> Vec<Meaning> {
    vec![
        meaning("Base", None, vec![field("x", "i32", "0")], vec![method("m", false, literal_body("base"))]),
        meaning("Mid", Some("Base"), vec![], vec![method("m", true, literal_body("mid"))]),
        meaning("Leaf", Some("Mid"), vec![], vec![method("m", true, literal_body("leaf"))]),
        meaning("Other", Some("Base"), vec![], vec![]),
    ]
}

#[test]
fn leaf_override_through_base_view() {
    let nodes = chain_nodes();
    let host = smodel(&nodes);
    assert!(host.diagnostics.is_empty());
    let t = &host.table;
    let mut rt = Runtime::new();
    let leaf = rt.construct(t, meaning_id(&host, "Leaf"));
    let base = rt.to(t, leaf, meaning_id(&host, "Base")).unwrap();
    let target = rt.invoke(t, base, &s("m")).unwrap();
    assert_eq!(meaning_name_of_method(&host, target), "Leaf");
    assert!(rt.is(t, base, meaning_id(&host, "Mid")));
    assert!(rt.is(t, base, meaning_id(&host, "Leaf")));
    assert_eq!(rt.to(t, base, meaning_id(&host, "Other")), Err(SModelError::Contravariant));
}

#[test]
fn duplicate_field_is_rejected() {
    let nodes = vec![meaning("Point", None, vec![field("x", "i32", "0"), field("x", "i64", "1")], vec![])];
    let host = smodel(&nodes);
    assert_eq!(host.diagnostics, vec![Diagnostic::FieldRedefinition { node: 0, field: 1 }]);
    let accessors = host.output.iter().filter(|f| matches!(f, Fragment::FieldAccessors { .. })).count();
    assert_eq!(accessors, 1);
    let m = meaning_id(&host, "Point");
    assert_eq!(host.table.meanings.get(m).fields.len(), 1);
    assert_eq!(host.table.fields.get(host.table.meanings.get(m).fields[0]).field_type, "i32");
}

#[test]
fn ascending_chain_grows_by_one() {
    let host = smodel(&chain_nodes());
    let t = &host.table;
    assert_eq!(t.asc_meaning_list(meaning_id(&host, "Base")).len(), 1);
    assert_eq!(t.asc_meaning_list(meaning_id(&host, "Mid")).len(), 2);
    assert_eq!(t.asc_meaning_list(meaning_id(&host, "Leaf")).len(), 3);
    assert_eq!(
        t.asc_meaning_list(meaning_id(&host, "Leaf")),
        vec![meaning_id(&host, "Base"), meaning_id(&host, "Mid"), meaning_id(&host, "Leaf")]
    );
}

#[test]
fn upcast_then_downcast_keeps_identity() {
    let host = smodel(&chain_nodes());
    let t = &host.table;
    let mut rt = Runtime::new();
    let _first = rt.construct(t, meaning_id(&host, "Other"));
    let leaf = rt.construct(t, meaning_id(&host, "Leaf"));
    for a in ["Base", "Mid", "Leaf"] {
        let up = rt.to(t, leaf, meaning_id(&host, a)).unwrap();
        assert_eq!(up.handle, leaf.handle);
        let back = rt.to(t, up, meaning_id(&host, "Leaf")).unwrap();
        assert_eq!(back, leaf);
    }
}

#[test]
fn is_false_off_the_chain() {
    let host = smodel(&chain_nodes());
    let t = &host.table;
    let mut rt = Runtime::new();
    let mid = rt.construct(t, meaning_id(&host, "Mid"));
    assert!(!rt.is(t, mid, meaning_id(&host, "Leaf")));
    assert!(!rt.is(t, mid, meaning_id(&host, "Other")));
    assert!(rt.is(t, mid, meaning_id(&host, "Base")));
    let base = rt.to(t, mid, meaning_id(&host, "Base")).unwrap();
    assert_eq!(rt.to(t, base, meaning_id(&host, "Leaf")), Err(SModelError::Contravariant));
}

#[test]
fn override_chain_super_calls() {
    let nodes = vec![
        meaning("A", None, vec![], vec![method("m", false, literal_body("a"))]),
        meaning("D", Some("A"), vec![], vec![method("m", true, super_body("m"))]),
        meaning("E", Some("D"), vec![], vec![method("m", true, super_body("m"))]),
    ];
    let host = smodel(&nodes);
    assert!(host.diagnostics.is_empty());
    let t = &host.table;
    let mut rt = Runtime::new();
    let e = rt.construct(t, meaning_id(&host, "E"));
    for view in ["A", "D", "E"] {
        let v = rt.to(t, e, meaning_id(&host, view)).unwrap();
        assert_eq!(rt.invoke(t, v, &s("m")), Some(method_of(&host, "E", "m")));
    }
    let d_m = method_of(&host, "D", "m");
    let a_m = method_of(&host, "A", "m");
    let mut core_calls = vec![];
    for f in host.output.iter() {
        if let Fragment::CoreMethod { meaning: m, body, .. } = f {
            for tok in body.iter() {
                if let Token::CoreCall { method, layers } = tok {
                    core_calls.push((host.table.meanings.get(*m).name.clone(), *method, *layers));
                }
            }
        }
    }
    assert_eq!(core_calls, vec![(s("D"), a_m, 1), (s("E"), d_m, 1)]);
}

#[test]
fn construction_sets_every_default_once() {
    let nodes = vec![
        meaning("A", None, vec![field("x", "i32", "1"), field("y", "String", "\"y\".into()")], vec![]),
        meaning("B", Some("A"), vec![field("z", "bool", "true")], vec![]),
    ];
    let host = smodel(&nodes);
    let t = &host.table;
    let mut rt = Runtime::new();
    let b = rt.construct(t, meaning_id(&host, "B"));
    assert_eq!(rt.arena.len(), 1);
    let record = rt.arena.get(b.handle);
    assert_eq!(record.layers.len(), 2);
    assert_eq!(record.layers[0].values, vec![s("1"), s("\"y\".into()")]);
    assert_eq!(record.layers[1].values, vec![s("true")]);
    let _a = rt.construct(t, meaning_id(&host, "A"));
    assert_eq!(rt.arena.len(), 2);
}

#[test]
fn test() {
    let nodes = vec![
        meaning(
            "Symbol",
            None,
            vec![field("x", "f64", "0.0"), MeaningField { is_ref: true, name: s("y"), type_annotation: s("String"), default_value: s("\"\".into()") }],
            vec![method("name", false, literal_body("")), method("base_example", false, literal_body("from base"))],
        ),
        meaning("Foo", Some("Symbol"), vec![], vec![method("name", true, literal_body("Foo"))]),
        meaning(
            "FooBar",
            Some("Foo"),
            vec![],
            vec![
                MeaningMethod { inherit_doc: true, ..method("name", true, literal_body("FooBar")) },
                method("base_example", true, super_body("base_example")),
            ],
        ),
        meaning("FooBarBar", Some("FooBar"), vec![], vec![MeaningMethod { inherit_doc: true, ..method("name", true, literal_body("FooBarBar")) }]),
        meaning("FooQux", Some("Foo"), vec![], vec![MeaningMethod { inherit_doc: true, ..method("name", true, literal_body("FooQux")) }]),
    ];
    let host = smodel(&nodes);
    assert!(host.diagnostics.is_empty());
    let t = &host.table;
    let id = |n: &str| meaning_id(&host, n);
    let mut rt = Runtime::new();

    let symbol = rt.construct(t, id("Foo"));
    let base_symbol = rt.to(t, symbol, id("Symbol")).unwrap();
    assert_eq!("Foo", meaning_name_of_method(&host, rt.invoke(t, base_symbol, &s("name")).unwrap()));
    assert_eq!(true, rt.is(t, base_symbol, id("Foo")));
    assert_eq!(false, rt.is(t, base_symbol, id("FooBar")));
    assert_eq!(false, rt.is(t, base_symbol, id("FooQux")));
    assert_eq!("Symbol", meaning_name_of_method(&host, rt.invoke(t, base_symbol, &s("base_example")).unwrap()));

    let symbol = rt.construct(t, id("FooBar"));
    let base_symbol = rt.to(t, symbol, id("Symbol")).unwrap();
    assert_eq!("FooBar", meaning_name_of_method(&host, rt.invoke(t, base_symbol, &s("name")).unwrap()));
    assert_eq!(true, rt.is(t, base_symbol, id("Foo")));
    assert_eq!(true, rt.is(t, base_symbol, id("FooBar")));
    assert_eq!(false, rt.is(t, base_symbol, id("FooBarBar")));
    assert_eq!(false, rt.is(t, base_symbol, id("FooQux")));
    let example = rt.invoke(t, base_symbol, &s("base_example")).unwrap();
    assert_eq!("FooBar", meaning_name_of_method(&host, example));
    assert_eq!(t.lookup_method_in_base_meaning(id("FooBar"), &s("base_example")), Some(method_of(&host, "Symbol", "base_example")));

    let symbol = rt.construct(t, id("FooBarBar"));
    let base_symbol = rt.to(t, symbol, id("Symbol")).unwrap();
    assert_eq!("FooBarBar", meaning_name_of_method(&host, rt.invoke(t, base_symbol, &s("name")).unwrap()));
    assert_eq!(true, rt.is(t, base_symbol, id("Foo")));
    assert_eq!(true, rt.is(t, base_symbol, id("FooBar")));
    assert_eq!(true, rt.is(t, base_symbol, id("FooBarBar")));
    assert_eq!(false, rt.is(t, base_symbol, id("FooQux")));
    assert_eq!("FooBar", meaning_name_of_method(&host, rt.invoke(t, base_symbol, &s("base_example")).unwrap()));

    let symbol = rt.construct(t, id("FooQux"));
    let base_symbol = rt.to(t, symbol, id("Symbol")).unwrap();
    assert_eq!("FooQux", meaning_name_of_method(&host, rt.invoke(t, base_symbol, &s("name")).unwrap()));
    assert_eq!(true, rt.is(t, base_symbol, id("Foo")));
    assert_eq!(false, rt.is(t, base_symbol, id("FooBar")));
    assert_eq!(true, rt.is(t, base_symbol, id("FooQux")));
}

#[test]
fn resolution_errors() {
    let nodes = vec![
        meaning("Root", None, vec![], vec![]),
        meaning("Orphan", Some("Missing"), vec![], vec![]),
        meaning("Root", Some("Root"), vec![], vec![]),
        meaning("NoParent", None, vec![], vec![]),
        meaning("Child", Some("Orphan"), vec![], vec![]),
    ];
    let host = smodel(&nodes);
    assert_eq!(
        host.diagnostics,
        vec![
            Diagnostic::BaseNotFound { node: 1 },
            Diagnostic::Redefinition { node: 2 },
            Diagnostic::MissingBase { node: 3 },
            Diagnostic::BaseNotFound { node: 4 },
        ]
    );
    assert_eq!(host.table.meanings.len(), 1);
    assert_eq!(host.semantics.meanings, vec![Some(0), None, None, None, None]);
}

#[test]
fn root_with_parent_and_empty_batch() {
    let host = smodel(&vec![meaning("Root", Some("Other"), vec![], vec![])]);
    assert_eq!(host.diagnostics, vec![Diagnostic::RootInherits { node: 0 }]);
    assert!(host.output.is_empty());
    let host = smodel(&vec![]);
    assert_eq!(host.diagnostics, vec![Diagnostic::NoMeanings]);
}

#[test]
fn method_errors() {
    let mut bad_receiver = method("a", false, vec![]);
    bad_receiver.inputs = vec![FnInput::Receiver { has_attributes: false, is_reference: true, has_lifetime: false, is_mutable: true }];
    let mut params = method("b", false, vec![]);
    params.inputs = vec![
        self_ref(),
        typed("k", "u32"),
        FnInput::Typed { name: None, pattern: s("(p, q)"), type_annotation: s("(u8, u8)") },
        self_ref(),
    ];
    let nodes = vec![
        meaning("Root", None, vec![], vec![
            bad_receiver,
            params,
            method("b", false, vec![]),
            method("c", true, vec![]),
            method("d", false, super_body("nothing")),
        ]),
    ];
    let host = smodel(&nodes);
    assert_eq!(
        host.diagnostics,
        vec![
            Diagnostic::ReceiverShape { node: 0, method: 0 },
            Diagnostic::PatternNotIdent { node: 0, method: Some(1), input: 2 },
            Diagnostic::UnexpectedReceiver { node: 0, method: Some(1), input: 3 },
            Diagnostic::MethodRedefinition { node: 0, method: 2 },
            Diagnostic::NoMethodInBase { node: 0, method: 3 },
            Diagnostic::SuperNoMethodInBase { node: 0, method: 4, token: 0 },
        ]
    );
    let args: Vec<Vec<String>> = host
        .output
        .iter()
        .filter_map(|f| match f {
            Fragment::CoreMethod { arguments, .. } => Some(arguments.clone()),
            _ => None,
        })
        .collect();
    assert_eq!(args, vec![vec![s("k")], vec![]]);
}

#[test]
fn static_methods_are_kept_as_declared() {
    let mut make = method("make", false, vec![]);
    make.inputs = vec![typed("n", "u32")];
    let host = smodel(&vec![meaning("Root", None, vec![], vec![make])]);
    assert!(host.diagnostics.is_empty());
    assert!(host.output.iter().any(|f| matches!(f, Fragment::StaticMethod { meaning: 0, node: 0, method: 0 })));
    assert_eq!(host.table.methods.len(), 0);
}

#[test]
fn inherited_documentation() {
    let mut documented = method("m", false, literal_body("a"));
    documented.doc = Some(s("Says hello."));
    let inheriting = MeaningMethod { inherit_doc: true, ..method("m", true, literal_body("b")) };
    let host = smodel(&vec![meaning("A", None, vec![], vec![documented]), meaning("B", Some("A"), vec![], vec![inheriting])]);
    assert!(host.diagnostics.is_empty());
    assert_eq!(host.table.methods.get(method_of(&host, "B", "m")).doc, Some(s("Says hello.")));
}

#[test]
fn conversions_and_dispatch_entries() {
    let host = smodel(&chain_nodes());
    let id = |n: &str| meaning_id(&host, n);
    let mut upcasts = vec![];
    let mut downcasts = vec![];
    let mut entries = vec![];
    for f in host.output.iter() {
        match f {
            Fragment::Upcast { from, to, layers } => upcasts.push((*from, *to, *layers)),
            Fragment::Downcast { from, to, path } => downcasts.push((*from, *to, path.clone())),
            Fragment::DispatchEntry { symbol, overrides, .. } => entries.push((*symbol, overrides.len())),
            _ => {}
        }
    }
    assert!(upcasts.contains(&(id("Leaf"), id("Base"), 2)));
    assert!(upcasts.contains(&(id("Leaf"), id("Mid"), 1)));
    assert!(downcasts.contains(&(id("Base"), id("Leaf"), vec![id("Mid"), id("Leaf")])));
    assert!(downcasts.contains(&(id("Base"), id("Other"), vec![id("Other")])));
    assert_eq!(downcasts.len(), 4);
    assert!(entries.contains(&(method_of(&host, "Base", "m"), 1)));
    assert!(entries.contains(&(method_of(&host, "Mid", "m"), 1)));
    assert!(entries.contains(&(method_of(&host, "Leaf", "m"), 0)));
    assert!(host.output.iter().any(|f| matches!(f, Fragment::ArenaType { root: 0 })));
}

#[test]
fn ancestor_fields_through_descendant() {
    let nodes = vec![
        meaning("A", None, vec![field("x", "i32", "1")], vec![]),
        meaning("B", Some("A"), vec![field("y", "i32", "2"), field("z", "i32", "3")], vec![]),
    ];
    let host = smodel(&nodes);
    let t = &host.table;
    let (a, b) = (meaning_id(&host, "A"), meaning_id(&host, "B"));
    let mut rt = Runtime::new();
    let first = rt.construct(t, b);
    let second = rt.construct(t, b);
    assert_eq!(rt.get_field(t, first, a, 0), "1");
    assert_eq!(rt.get_field(t, first, b, 1), "3");
    rt.set_field(t, first, a, 0, s("10"));
    rt.set_field(t, first, b, 0, s("20"));
    assert_eq!(rt.get_field(t, first, a, 0), "10");
    assert_eq!(rt.get_field(t, first, b, 0), "20");
    assert_eq!(rt.get_field(t, first, b, 1), "3");
    assert_eq!(rt.get_field(t, second, a, 0), "1");
    assert_eq!(rt.get_field(t, second, b, 0), "2");
    let up = rt.to(t, first, a).unwrap();
    assert_eq!(rt.get_field(t, up, a, 0), "10");
}

#[test]
fn deep_override_chain_skips_layers() {
    let nodes = vec![
        meaning("A", None, vec![], vec![method("m", false, literal_body("a"))]),
        meaning("B", Some("A"), vec![], vec![]),
        meaning("C", Some("B"), vec![], vec![method("m", true, super_body("m"))]),
        meaning("D", Some("C"), vec![], vec![]),
        meaning("E", Some("D"), vec![], vec![method("m", true, super_body("m"))]),
    ];
    let host = smodel(&nodes);
    assert!(host.diagnostics.is_empty());
    let t = &host.table;
    let id = |n: &str| meaning_id(&host, n);
    let mut rt = Runtime::new();
    let e = rt.construct(t, id("E"));
    let d = rt.construct(t, id("D"));
    let b = rt.construct(t, id("B"));
    for view in ["A", "B", "C", "D", "E"] {
        let v = rt.to(t, e, id(view)).unwrap();
        assert_eq!(rt.invoke(t, v, &s("m")), Some(method_of(&host, "E", "m")));
    }
    for view in ["A", "B", "C", "D"] {
        let v = rt.to(t, d, id(view)).unwrap();
        assert_eq!(rt.invoke(t, v, &s("m")), Some(method_of(&host, "C", "m")));
    }
    let v = rt.to(t, b, id("A")).unwrap();
    assert_eq!(rt.invoke(t, v, &s("m")), Some(method_of(&host, "A", "m")));
    assert_eq!(t.lookup_method_in_base_meaning(id("E"), &s("m")), Some(method_of(&host, "C", "m")));
    assert_eq!(t.lookup_method_in_base_meaning(id("C"), &s("m")), Some(method_of(&host, "A", "m")));
}

#[test]
fn redeclaration_without_override_does_not_dispatch() {
    let nodes = vec![
        meaning("A", None, vec![], vec![method("m", false, literal_body("a"))]),
        meaning("B", Some("A"), vec![], vec![method("m", false, literal_body("b"))]),
    ];
    let host = smodel(&nodes);
    assert!(host.diagnostics.is_empty());
    let t = &host.table;
    let mut rt = Runtime::new();
    let b = rt.construct(t, meaning_id(&host, "B"));
    let a_view = rt.to(t, b, meaning_id(&host, "A")).unwrap();
    assert_eq!(rt.invoke(t, a_view, &s("m")), Some(method_of(&host, "A", "m")));
    assert_eq!(rt.invoke(t, b, &s("m")), Some(method_of(&host, "B", "m")));
    assert_eq!(rt.invoke(t, b, &s("other")), None);
}

#[test]
fn identity_is_the_allocation() {
    let nodes = vec![meaning("A", None, vec![field("x", "i32", "1")], vec![]), meaning("B", Some("A"), vec![], vec![])];
    let host = smodel(&nodes);
    let t = &host.table;
    let (a, b) = (meaning_id(&host, "A"), meaning_id(&host, "B"));
    let mut rt = Runtime::new();
    let first = rt.construct(t, b);
    let second = rt.construct(t, b);
    let first_as_a = rt.to(t, first, a).unwrap();
    assert!(rt.same_instance(first, first_as_a));
    assert!(!rt.same_instance(first, second));
    rt.set_field(t, first, a, 0, s("5"));
    assert!(rt.same_instance(first, first_as_a));
    assert!(!rt.same_instance(first_as_a, second));
}

#[test]
fn constructor_forwards_super_arguments() {
    let mut child = meaning("B", Some("A"), vec![], vec![]);
    child.constructor = Some(MeaningConstructor {
        attributes: vec![],
        visibility: s("pub"),
        inputs: vec![typed("n", "u32")],
        super_arguments: vec![s("n + 1"), s("2")],
        statements: String::new(),
    });
    let host = smodel(&vec![meaning("A", None, vec![], vec![]), child]);
    let (a, b) = (meaning_id(&host, "A"), meaning_id(&host, "B"));
    let mut found = vec![];
    for f in host.output.iter() {
        if let Fragment::Constructor { meaning, parent, super_arguments, arguments, chain, .. } = f {
            found.push((*meaning, *parent, super_arguments.clone(), arguments.clone(), chain.clone()));
        }
    }
    assert_eq!(
        found,
        vec![
            (a, None, vec![], vec![], vec![a]),
            (b, Some(a), vec![s("n + 1"), s("2")], vec![s("n")], vec![a, b]),
        ]
    );
}

#[test]
fn unresolved_declaration_gets_no_fragment() {
    let nodes = vec![
        meaning("A", None, vec![field("x", "i32", "0")], vec![method("m", false, vec![])]),
        meaning("Lost", Some("Nowhere"), vec![field("y", "i32", "0")], vec![method("m", false, vec![])]),
    ];
    let host = smodel(&nodes);
    assert_eq!(host.diagnostics, vec![Diagnostic::BaseNotFound { node: 1 }]);
    for f in host.output.iter() {
        match f {
            Fragment::Wrapper { node, .. }
            | Fragment::Constructor { node, .. }
            | Fragment::StaticMethod { node, .. }
            | Fragment::CoreMethod { node, .. }
            | Fragment::DispatchEntry { node, .. } => assert_eq!(*node, 0),
            Fragment::DataRecord { meaning, .. } | Fragment::FieldAccessors { meaning, .. } | Fragment::Helpers { meaning } => {
                assert_eq!(*meaning, 0)
            },
            _ => {},
        }
    }
    assert_eq!(host.semantics.methods[1], vec![None]);
}

#[test]
fn data_record_lists_fields_and_submeanings() {
    let host = smodel(&chain_nodes());
    let id = |n: &str| meaning_id(&host, n);
    let base_fields = host.table.meanings.get(id("Base")).fields.clone();
    let records: Vec<(usize, Vec<usize>, Vec<usize>)> = host
        .output
        .iter()
        .filter_map(|f| match f {
            Fragment::DataRecord { meaning, fields, variants } => Some((*meaning, fields.clone(), variants.clone())),
            _ => None,
        })
        .collect();
    assert!(records.contains(&(id("Base"), base_fields, vec![id("Mid"), id("Other")])));
    assert!(records.contains(&(id("Mid"), vec![], vec![id("Leaf")])));
    assert!(records.contains(&(id("Leaf"), vec![], vec![])));
    assert_eq!(records.len(), 4);
}

#[test]
fn super_call_inside_an_expression() {
    let mut body = vec![
        Token::Ident(s("format")),
        Token::Punct('!'),
        Token::Open(Delimiter::Parenthesis),
        Token::Literal(s("\"from bar; {}\"")),
        Token::Punct(','),
    ];
    body.extend(super_body("base_example"));
    body.push(Token::Close(Delimiter::Parenthesis));
    let nodes = vec![
        meaning("Symbol", None, vec![], vec![method("base_example", false, literal_body("from base"))]),
        meaning("Foo", Some("Symbol"), vec![], vec![]),
        meaning("FooBar", Some("Foo"), vec![], vec![method("base_example", true, body)]),
    ];
    let host = smodel(&nodes);
    assert!(host.diagnostics.is_empty());
    let base = method_of(&host, "Symbol", "base_example");
    let bodies: Vec<Vec<Token>> = host
        .output
        .iter()
        .filter_map(|f| match f {
            Fragment::CoreMethod { node: 2, body, .. } => Some(body.clone()),
            _ => None,
        })
        .collect();
    assert_eq!(bodies.len(), 1);
    let rewritten = &bodies[0];
    assert_eq!(rewritten.len(), 8);
    assert!(matches!(&rewritten[0], Token::Ident(x) if x == "format"));
    assert!(matches!(&rewritten[4], Token::Punct(',')));
    assert!(matches!(&rewritten[5], Token::CoreCall { method, layers: 2 } if *method == base));
    assert!(matches!(&rewritten[6], Token::Close(Delimiter::Parenthesis)));
    assert!(matches!(&rewritten[7], Token::Close(Delimiter::Parenthesis)));
}
