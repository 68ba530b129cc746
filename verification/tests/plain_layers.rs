use grimoire::{
    evaluate_layer, Address, Block, Connection, CoreGraph, Decoration, Description, Element, ExtensionParameter,
    ExtensionValue, Group, Layer, LayerInput, Namespace, OrderedMap, Port, Projection, SelectItem, Value, Version,
};

fn address(value: &str) -> Address {
    Address::parse(value).unwrap_or_else(|error| panic!("{}", error.to_string()))
}

fn description(layers: Vec<Layer>) -> Description {
    Description {
        address: address("@d"),
        label: None,
        core_spec: Version::new(1, 0, 0),
        core: CoreGraph {
            blocks: OrderedMap::from_pairs(Vec::new()),
            connections: OrderedMap::from_pairs(Vec::new()),
            groups: OrderedMap::from_pairs(Vec::new()),
        },
        extensions: Vec::new(),
        layers,
    }
}

fn block(name: &str, port: &str) -> Block {
    Block {
        address: address(name),
        name: "Generated".to_owned(),
        ports: OrderedMap::from_pairs(vec![(
            address(port),
            Port {
                address: address(port),
                label: None,
                extensions: Vec::new(),
            },
        )]),
        extensions: Vec::new(),
    }
}

fn standalone(name: &str, select: Vec<SelectItem>) -> Layer {
    Layer {
        name: name.to_owned(),
        inputs: Vec::<LayerInput>::new(),
        projection_language: Version::new(1, 0, 0),
        schemas: Vec::new(),
        projection: Projection {
            select,
            ..Projection::default()
        },
    }
}

#[test]
fn a_layer_without_inputs_holds_exactly_what_it_generates() {
    let flow = Connection {
        address: address("@flow"),
        label: None,
        source: address("@a/out"),
        destination: address("@b/in"),
        extensions: Vec::new(),
    };
    let d = description(vec![standalone(
        "alone",
        vec![
            SelectItem::GenerateBlock(block("@a", "@a/out")),
            SelectItem::GenerateBlock(block("@b", "@b/in")),
            SelectItem::GenerateConnection(flow),
        ],
    )]);
    let result = evaluate_layer(&d, "alone").unwrap_or_else(|error| panic!("{}", error.to_string()));
    assert_eq!(result.structural.elements.len(), 5);
    for held in ["@a", "@a/out", "@b", "@b/in", "@flow"] {
        assert!(result.structural.elements.contains_key(&address(held)));
    }
    assert!(!result.structural.elements.contains_key(&address("@d")));
    assert!(matches!(
        (*result.structural.elements.get(&address("@flow")).unwrap()),
        Element::Connection(_)
    ));
    assert!(result.decorations.is_empty());
    assert!(result.checks.is_empty());
}

#[test]
fn a_layer_that_generates_one_address_twice_fails_at_fold() {
    let d = description(vec![standalone(
        "twice",
        vec![
            SelectItem::GenerateBlock(block("@a", "@a/out")),
            SelectItem::GenerateBlock(block("@a", "@a/in")),
        ],
    )]);
    let error = evaluate_layer(&d, "twice").unwrap_err();
    assert_eq!(error.stage, "fold");
    assert_eq!(error.identifier.as_deref(), Some("@a"));
}

#[test]
fn an_unknown_layer_is_a_select_error_that_names_it() {
    let d = description(Vec::new());
    let error = evaluate_layer(&d, "absent").unwrap_err();
    assert_eq!(error.stage, "select");
    assert_eq!(error.identifier.as_deref(), Some("absent"));
    assert_eq!(error.message, "layer does not exist");
    assert_eq!(error.to_string(), "projection select for `absent`: layer does not exist");
}

fn core_description(layers: Vec<Layer>) -> Description {
    let mut d = description(layers);
    d.core.blocks = OrderedMap::from_pairs(vec![
        (address("@source"), block("@source", "@source/out")),
        (address("@target"), block("@target", "@target/in")),
    ]);
    d
}

#[test]
fn a_plain_layer_over_the_core_uses_core_elements_and_inverts_its_own_group() {
    let back = Connection {
        address: address("@back"),
        label: None,
        source: address("@source/out"),
        destination: address("@target/in"),
        extensions: Vec::new(),
    };
    let group = Group {
        address: address("@back-group"),
        label: None,
        members: vec![address("@back")],
        extensions: Vec::new(),
    };
    let d = core_description(vec![Layer {
        name: "over-core".to_owned(),
        inputs: vec![LayerInput::Core],
        projection_language: Version::new(1, 0, 0),
        schemas: Vec::new(),
        projection: Projection {
            select: vec![
                SelectItem::Use(vec![address("@source"), address("@source/out")]),
                SelectItem::GenerateConnection(back),
                SelectItem::GenerateGroup(group),
            ],
            invert: vec![address("@back-group")],
            ..Projection::default()
        },
    }]);
    let result = evaluate_layer(&d, "over-core").unwrap_or_else(|error| panic!("{}", error.to_string()));
    assert_eq!(result.structural.elements.len(), 4);
    for held in ["@source", "@source/out", "@back", "@back-group"] {
        assert!(result.structural.elements.contains_key(&address(held)));
    }
    assert!(!result.structural.elements.contains_key(&address("@target")));
    let Element::Connection(flow) = &(*result.structural.elements.get(&address("@back")).unwrap()) else {
        panic!("expected a connection");
    };
    assert_eq!(flow.source, address("@target/in"));
    assert_eq!(flow.destination, address("@source/out"));
}

#[test]
fn decorating_an_address_the_layer_does_not_hold_fails_at_decorate() {
    let decoration = Decoration {
        target: address("@target"),
        parameter: ExtensionParameter {
            namespace: Namespace::parse("https://github.com/goldenwitch/grimoire/extension/architecture")
                .unwrap_or_else(|error| panic!("{}", error.to_string())),
            name: "family".to_owned(),
            schema: "architecture".to_owned(),
            version: Version::new(1, 0, 0),
            value: ExtensionValue::Known(Value::product(vec![("family".to_owned(), Value::Text("x".to_owned()))])),
        },
    };
    let d = core_description(vec![Layer {
        name: "partial".to_owned(),
        inputs: vec![LayerInput::Core],
        projection_language: Version::new(1, 0, 0),
        schemas: Vec::new(),
        projection: Projection {
            select: vec![SelectItem::Use(vec![address("@source")])],
            decorate: vec![decoration],
            ..Projection::default()
        },
    }]);
    let error = evaluate_layer(&d, "partial").unwrap_err();
    assert_eq!(error.stage, "decorate");
    assert_eq!(error.identifier.as_deref(), Some("@target"));
    assert_eq!(error.message, "decoration target is not in the folded structural result");
}
