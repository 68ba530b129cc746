use grimoire::{
    bytes_on_wire, evaluate_layer, parse_description, prototype_schemas, validate_description, Address,
    Collective, CollectiveTransfer, Element, OrderedMap, Placement, PlacementError, Schema, ShapeDimension,
    TensorShape,
};

const PLACEMENT_LAYER: &str = r#"
    grimoire 1.0.0
    description @d "placement" {
        core-spec 1.0.0;
        core {
            block @encoder "Encoder" {
                port @encoder/output extensions {
                    extension "https://github.com/goldenwitch/grimoire/extension/shapes" shape schema shapes @1.0.0 = {
                        layout: vector,
                        dimensions: [literal(4)]
                    };
                };
            }
            block @head "Head" { port @head/input; }
            connection @flow @encoder/output -> @head/input;
            group @graph "graph" { @encoder, @head, @flow; }
        }
        layer "placement" {
            inputs { core };
            consumes {
                projection-language 1.0.0;
                schemas {
                    "https://github.com/goldenwitch/grimoire/extension/placement" / placement @1.0.0;
                    "https://github.com/goldenwitch/grimoire/extension/shapes" / shapes @1.0.0;
                }
            }
            projection {
                select {
                    use @encoder, @encoder/output, @head, @head/input, @flow, @graph;
                    block @placement/all-reduce "All reduce" { }
                }
                decorate {
                    on @encoder extension "https://github.com/goldenwitch/grimoire/extension/placement" placement schema placement @1.0.0 = { location: "gpu-0" };
                    on @head extension "https://github.com/goldenwitch/grimoire/extension/placement" placement schema placement @1.0.0 = { location: "gpu-1" };
                    on @placement/all-reduce extension "https://github.com/goldenwitch/grimoire/extension/placement" placement schema placement @1.0.0 = { location: "gpu-0" };
                }
            }
        }
    }
"#;

fn address(value: &str) -> Address {
    Address::parse(value).unwrap_or_else(|error| panic!("{}", error.to_string()))
}

fn schemas() -> Vec<Schema> {
    prototype_schemas().unwrap_or_else(|error| panic!("{:?}", error))
}

fn parsed() -> grimoire::Description {
    parse_description(PLACEMENT_LAYER).unwrap_or_else(|error| panic!("{}", error.to_string()))
}

fn shape() -> TensorShape {
    TensorShape::new(vec![ShapeDimension::Literal(4)], 2).unwrap_or_else(|error| panic!("{}", error.to_string()))
}

#[test]
fn placement_decorations_validate_and_extract_locations() {
    let description = parsed();
    validate_description(&description, &schemas())
        .unwrap_or_else(|errors| panic!("validation errors: {:?}", errors));
    let result =
        evaluate_layer(&description, "placement").unwrap_or_else(|error| panic!("{}", error.to_string()));
    let placement =
        Placement::from_decorations(&result.decorations).unwrap_or_else(|error| panic!("{}", error.to_string()));

    assert_eq!(
        placement.assigned_location(&address("@encoder")),
        Some("gpu-0")
    );
    assert_eq!(
        placement.assigned_location(&address("@head")),
        Some("gpu-1")
    );
    assert!(matches!(
        result
            .structural
            .elements
            .get(&address("@placement/all-reduce")),
        Some(Element::Block(_))
    ));
}

#[test]
fn bytes_on_wire_uses_block_placement_and_explicit_shapes() {
    let description = parsed();
    let result =
        evaluate_layer(&description, "placement").unwrap_or_else(|error| panic!("{}", error.to_string()));
    let placement =
        Placement::from_decorations(&result.decorations).unwrap_or_else(|error| panic!("{}", error.to_string()));
    let shapes = OrderedMap::from_pairs(vec![(address("@encoder/output"), shape())]);
    let collective = Collective::new(
        address("@placement/all-reduce"),
        address("@encoder/output"),
        vec![CollectiveTransfer::new(
            address("@encoder"),
            address("@head"),
        )],
    )
    .unwrap_or_else(|error| panic!("{}", error.to_string()));

    let report = bytes_on_wire(
        &result.structural,
        &placement,
        &shapes,
        &OrderedMap::new(),
        &[collective],
    )
    .unwrap_or_else(|error| panic!("{}", error.to_string()));
    assert_eq!(report.total_bytes(), 16);
    assert_eq!(report.transfers.len(), 2);
    assert_eq!(report.transfers[0].bytes, 8);
    assert_eq!(report.transfers[1].bytes, 8);
}

#[test]
fn same_location_links_need_no_shape_and_missing_location_fails() {
    let description = parsed();
    let result =
        evaluate_layer(&description, "placement").unwrap_or_else(|error| panic!("{}", error.to_string()));
    let same_location = Placement::new(vec![
        (address("@encoder"), "gpu-0".to_owned()),
        (address("@head"), "gpu-0".to_owned()),
    ])
    .unwrap_or_else(|error| panic!("{}", error.to_string()));
    let report = bytes_on_wire(
        &result.structural,
        &same_location,
        &OrderedMap::new(),
        &OrderedMap::new(),
        &[],
    )
    .unwrap_or_else(|error| panic!("{}", error.to_string()));
    assert!(report.transfers.is_empty());
    assert_eq!(report.total_bytes(), 0);

    let missing = Placement::new(vec![(address("@encoder"), "gpu-0".to_owned())])
        .unwrap_or_else(|error| panic!("{}", error.to_string()));
    let error = bytes_on_wire(
        &result.structural,
        &missing,
        &OrderedMap::new(),
        &OrderedMap::new(),
        &[],
    )
    .expect_err("cross-device traffic needs both endpoint placements");
    assert_eq!(
        error,
        PlacementError::MissingPlacement(address("@head/input"))
    );
}

#[test]
fn symbolic_shape_extents_are_explicit_and_checked() {
    let axis = address("@axis/frames");
    let shape = TensorShape::new(vec![ShapeDimension::Axis(axis.clone())], 4)
        .unwrap_or_else(|error| panic!("{}", error.to_string()));
    let bytes = shape
        .byte_size(&OrderedMap::from_pairs(vec![(axis.clone(), 16)]))
        .unwrap_or_else(|error| panic!("{}", error.to_string()));
    assert_eq!(bytes, 64);
    assert_eq!(
        shape.byte_size(&OrderedMap::new()),
        Err(PlacementError::MissingAxis(axis))
    );
}

#[test]
fn transfers_come_ordered_and_report_their_relation() {
    let description = parsed();
    let result =
        evaluate_layer(&description, "placement").unwrap_or_else(|error| panic!("{}", error.to_string()));
    let placement =
        Placement::from_decorations(&result.decorations).unwrap_or_else(|error| panic!("{}", error.to_string()));
    let shapes = OrderedMap::from_pairs(vec![(address("@encoder/output"), shape())]);
    let collective = Collective::new(
        address("@placement/all-reduce"),
        address("@encoder/output"),
        vec![
            CollectiveTransfer::new(address("@head"), address("@encoder")),
            CollectiveTransfer::new(address("@encoder"), address("@head")),
        ],
    )
    .unwrap_or_else(|error| panic!("{}", error.to_string()));
    let report = bytes_on_wire(&result.structural, &placement, &shapes, &OrderedMap::new(), &[collective])
        .unwrap_or_else(|error| panic!("{}", error.to_string()));
    let seen: Vec<(String, String, String)> = report
        .transfers
        .iter()
        .map(|t| (t.relation.as_str().to_owned(), t.source.as_str().to_owned(), t.destination.as_str().to_owned()))
        .collect();
    assert_eq!(
        seen,
        vec![
            ("@flow".to_owned(), "@encoder/output".to_owned(), "@head/input".to_owned()),
            ("@placement/all-reduce".to_owned(), "@encoder".to_owned(), "@head".to_owned()),
            ("@placement/all-reduce".to_owned(), "@head".to_owned(), "@encoder".to_owned()),
        ]
    );
    assert_eq!(report.total_bytes(), 24);
    assert_eq!(report.transfers.iter().map(|t| t.bytes).sum::<u64>(), report.total_bytes());
    assert_eq!(report.transfer_items().len(), report.transfers.len());
}

#[test]
fn collectives_need_a_new_block_relation_and_a_payload_shape() {
    let description = parsed();
    let result =
        evaluate_layer(&description, "placement").unwrap_or_else(|error| panic!("{}", error.to_string()));
    let placement =
        Placement::from_decorations(&result.decorations).unwrap_or_else(|error| panic!("{}", error.to_string()));
    let shapes = OrderedMap::from_pairs(vec![(address("@encoder/output"), shape())]);
    let transfer = || vec![CollectiveTransfer::new(address("@encoder"), address("@head"))];
    let on_connection = Collective::new(address("@flow"), address("@encoder/output"), transfer())
        .unwrap_or_else(|error| panic!("{}", error.to_string()));
    assert_eq!(
        bytes_on_wire(&result.structural, &placement, &shapes, &OrderedMap::new(), &[on_connection]),
        Err(PlacementError::DuplicateRelation(address("@flow")))
    );
    let on_port = Collective::new(address("@head/input"), address("@encoder/output"), transfer())
        .unwrap_or_else(|error| panic!("{}", error.to_string()));
    assert_eq!(
        bytes_on_wire(&result.structural, &placement, &shapes, &OrderedMap::new(), &[on_port]),
        Err(PlacementError::CollectiveElementMissing(address("@head/input")))
    );
    let no_shape = Collective::new(address("@placement/all-reduce"), address("@head/input"), transfer())
        .unwrap_or_else(|error| panic!("{}", error.to_string()));
    assert_eq!(
        bytes_on_wire(&result.structural, &placement, &shapes, &OrderedMap::new(), &[no_shape]),
        Err(PlacementError::MissingShape(address("@head/input")))
    );
    assert_eq!(
        Collective::new(address("@placement/all-reduce"), address("@encoder/output"), Vec::new()),
        Err(PlacementError::EmptyCollectiveTransfers(address("@placement/all-reduce")))
    );
}

#[test]
fn placement_errors_read_as_sentences() {
    assert_eq!(
        PlacementError::ZeroShapeDimension { index: 12 }.to_string(),
        "tensor shape dimension 12 must be positive"
    );
    assert_eq!(
        PlacementError::DuplicateCollectiveTransfer {
            collective: address("@c"),
            source: address("@a"),
            destination: address("@b"),
        }
        .to_string(),
        "collective `@c` repeats transfer `@a` -> `@b`"
    );
    assert_eq!(
        PlacementError::MissingPlacement(address("@x")).to_string(),
        "no placement is assigned to `@x` or its owning block"
    );
    assert_eq!(
        Placement::new(vec![(address("@x"), "  ".to_owned())]),
        Err(PlacementError::EmptyLocation(address("@x")))
    );
    assert_eq!(
        Placement::new(vec![(address("@x"), "a".to_owned()), (address("@x"), "b".to_owned())]),
        Err(PlacementError::DuplicatePlacement(address("@x")))
    );
}
