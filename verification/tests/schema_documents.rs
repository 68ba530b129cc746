use grimoire::{
    parse_schema_document, prototype_schemas, serialize_schema_document, ElementKind, SchemaExpr,
};

const SHAPES: &str = r#"
    grimoire-schema 1.0.0
    schema {
        namespace "https://github.com/goldenwitch/grimoire/extension/shapes";
        name shapes;
        version 1.0.0;
        allows { port };
        value product {
            layout: enumeration { scalar, vector, sequence, grid, volume },
            dimensions: sequence<alternative {
                literal: positive-integer,
                symbolic: address-reference
            }>
        };
    }
"#;

#[test]
fn parses_the_shapes_schema_document() {
    let schema = parse_schema_document(SHAPES).unwrap_or_else(|error| panic!("{}", error.to_string()));
    assert_eq!(
        schema.namespace.as_str(),
        "https://github.com/goldenwitch/grimoire/extension/shapes"
    );
    assert_eq!(schema.name, "shapes");
    assert!(schema.allowed_elements.contains(&ElementKind::Port));
    let SchemaExpr::Product(fields) = schema.value else {
        panic!("shapes should be a product schema");
    };
    assert_eq!(fields.len(), 2);
    assert_eq!(fields[0].name, "layout");
    assert_eq!(fields[1].name, "dimensions");
}

#[test]
fn parsed_schema_matches_the_registry_entry() {
    let parsed = parse_schema_document(SHAPES).unwrap_or_else(|error| panic!("{}", error.to_string()));
    let registered = prototype_schemas()
        .unwrap_or_else(|error| panic!("{}", error.to_string()))
        .into_iter()
        .find(|schema| schema.name == "shapes")
        .unwrap_or_else(|| panic!("missing registered shapes schema"));
    assert_eq!(parsed, registered);
}

#[test]
fn parses_nested_closed_schema_constructors() {
    let source = r#"
        grimoire-schema 1.0.0
        schema {
            namespace "https://github.com/goldenwitch/grimoire/extension/test";
            name test;
            version 1.0.0;
            allows { block, group };
            value alternative {
                enabled: finite-scalar,
                absent-name: presence<text>
            };
        }
    "#;
    let schema = parse_schema_document(source).unwrap_or_else(|error| panic!("{}", error.to_string()));
    assert_eq!(schema.allowed_elements.len(), 2);
    assert!(matches!(schema.value, SchemaExpr::Alternative(_)));
}

#[test]
fn rejects_duplicate_schema_fields_and_arms() {
    let fields = r#"
        grimoire-schema 1.0.0 schema {
            namespace "https://example.org/test";
            name test;
            version 1.0.0;
            allows { block };
            value product { one: text, one: text };
        }
    "#;
    let field_error = parse_schema_document(fields).expect_err("duplicate field should fail");
    assert!(field_error.message.contains("duplicate product field"));

    let arms = r#"
        grimoire-schema 1.0.0 schema {
            namespace "https://example.org/test";
            name test;
            version 1.0.0;
            allows { block };
            value alternative { one: text, one: finite-scalar };
        }
    "#;
    let arm_error = parse_schema_document(arms).expect_err("duplicate arm should fail");
    assert!(arm_error.message.contains("duplicate alternative tag"));
}

#[test]
fn rejects_unknown_schema_expression() {
    let source = r#"
        grimoire-schema 1.0.0 schema {
            namespace "https://example.org/test";
            name test;
            version 1.0.0;
            allows { block };
            value open-ended;
        }
    "#;
    let error = parse_schema_document(source).expect_err("unknown constructor should fail");
    assert!(error.message.contains("unknown schema expression"));
}

#[test]
fn schema_serialization_round_trips() {
    let schema = parse_schema_document(SHAPES).unwrap_or_else(|error| panic!("{}", error.to_string()));
    let serialized = serialize_schema_document(&schema).unwrap_or_else(|error| panic!("{}", error.message));
    let reparsed = parse_schema_document(&serialized).unwrap_or_else(|error| panic!("{}", error.to_string()));
    assert_eq!(reparsed, schema);
}

#[test]
fn schema_parse_errors_report_byte_offsets() {
    let error = parse_schema_document("grimoire-schema 1.0.0 # \u{e9}\nschema { }")
        .expect_err("an incomplete document should fail");
    assert_eq!(error.message, "expected a word");
    assert_eq!(error.offset, 36);
    assert_eq!(error.to_string(), "at byte 36: expected a word");
}

#[test]
fn schema_documents_reject_trailing_input() {
    let source = format!("{SHAPES} extra");
    let error = parse_schema_document(&source).expect_err("trailing input should fail");
    assert_eq!(error.message, "trailing input");
}

#[test]
fn registry_schemas_read_back_from_their_canonical_documents() {
    let schemas = grimoire::prototype_schemas().unwrap_or_else(|error| panic!("{}", error.to_string()));
    for schema in &schemas {
        let text = grimoire::serialize_schema_document(schema).unwrap_or_else(|_| panic!("serialization failed"));
        let parsed = grimoire::parse_schema_document(&text).unwrap_or_else(|error| panic!("{}", error.to_string()));
        let again = grimoire::serialize_schema_document(&parsed).unwrap_or_else(|_| panic!("serialization failed"));
        assert_eq!(again, text);
        assert_eq!(parsed.name, schema.name);
        assert_eq!(parsed.namespace, schema.namespace);
    }
}
