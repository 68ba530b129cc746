#![allow(dead_code)]
use grimoire::{Address, ExtensionValue, Schema, Value, parse_description, prototype_schemas};

fn address(value: &str) -> Address {
    Address::parse(value).unwrap_or_else(|error| panic!("{}", error.to_string()))
}

fn schemas() -> Vec<Schema> {
    prototype_schemas().unwrap_or_else(|error| panic!("{:?}", error))
}

fn field<'a>(fields: &'a [(String, Value)], name: &str) -> Option<&'a Value> {
    fields.iter().find(|(field_name, _)| field_name == name).map(|(_, value)| value)
}


const PROTOTYPE_NAMESPACE: &str = "https://github.com/goldenwitch/grimoire/extension/shapes";

#[test]
fn parses_known_extension_values_into_the_closed_algebra() {
    let source = r#"
        grimoire 1.0.0
        description @d {
            core-spec 1.0.0;
            extensions {
                extension "https://github.com/goldenwitch/grimoire/extension/shapes" shape schema shapes @1.0.0 = {
                    layout: sequence,
                    dimensions: [1, 0, ref(@d)]
                };
            }
            core { block @b "block" { port @b/p; } }
        }
    "#;
    let description = parse_description(source).unwrap_or_else(|error| panic!("{error:?}"));
    let extension = &description.extensions[0];
    assert_eq!(extension.namespace.as_str(), PROTOTYPE_NAMESPACE);
    assert_eq!(extension.name, "shape");
    let ExtensionValue::Known(Value::Product(fields)) = &extension.value else {
        panic!("known namespace should parse a typed product");
    };
    assert_eq!(
        field(&fields, "layout"),
        Some(&Value::Enum("sequence".to_owned()))
    );
    let Some(Value::Sequence(values)) = field(&fields, "dimensions") else {
        panic!("shape dimensions should be a sequence");
    };
    assert_eq!(values.len(), 3);
    assert_eq!(values[0], Value::PositiveInteger(1));
    let Value::Number(number) = &values[1] else {
        panic!("zero should parse as a finite number");
    };
    assert_eq!(f64::from_bits(number.to_bits()), 0.0);
    assert_eq!(
        values[2],
        Value::AddressReference(Address::parse("@d").unwrap())
    );
}

#[test]
fn preserves_unknown_extension_source_span() {
    let source = r#"grimoire 1.0.0 description @d {
    core-spec 1.0.0;
    extensions {
        extension "https://other.example/opaque" payload schema unknown @1.0.0 = { value: "keep" # retained
        };
    }
    core { block @b "block" { port @b/p; } }
}"#;
    let description = parse_description(source).unwrap_or_else(|error| panic!("{error:?}"));
    let expected = "extension \"https://other.example/opaque\" payload schema unknown @1.0.0 = { value: \"keep\" # retained\n        };";
    let ExtensionValue::Opaque(raw) = &description.extensions[0].value else {
        panic!("unknown namespace should remain opaque");
    };
    assert_eq!(String::from_utf8_lossy(raw), expected);
}

#[test]
fn rejects_schema_version_without_at_sign() {
    let source = r#"
        grimoire 1.0.0
        description @d {
            core-spec 1.0.0;
            extensions {
                extension "https://other.example/opaque" payload schema unknown 1.0.0 = true;
            }
            core {}
        }
    "#;
    let error = parse_description(source).expect_err("schema version must carry an at sign");
    assert!(error.offset > 0);
    assert!(error.message.contains("schema version requires `@`"));
}

fn shape_source(dimensions: &str) -> String {
    format!(
        "grimoire 1.0.0 description @d {{ core-spec 1.0.0; extensions {{ extension \"{PROTOTYPE_NAMESPACE}\" shape schema shapes @1.0.0 = {{ layout: sequence, dimensions: [{dimensions}] }}; }} core {{ block @b \"block\" {{ port @b/p; }} }} }}"
    )
}

#[test]
fn whole_numbers_with_a_zero_fraction_parse_as_finite_numbers() {
    let description = parse_description(&shape_source("50.0, 7, 0.00"))
        .unwrap_or_else(|error| panic!("{}", error.to_string()));
    let ExtensionValue::Known(Value::Product(fields)) = &description.extensions[0].value else {
        panic!("known namespace should parse a typed product");
    };
    let Some(Value::Sequence(values)) = field(&fields, "dimensions") else {
        panic!("shape dimensions should be a sequence");
    };
    let Value::Number(fifty) = &values[0] else {
        panic!("50.0 should parse as a finite number");
    };
    assert_eq!(f64::from_bits(fifty.to_bits()), 50.0);
    assert_eq!(values[1], Value::PositiveInteger(7));
    let Value::Number(zero) = &values[2] else {
        panic!("0.00 should parse as a finite number");
    };
    assert_eq!(zero.to_bits(), 0);
}

#[test]
fn fractional_number_literals_read_as_the_nearest_double() {
    let description = parse_description(&shape_source("0.0001, 1.5, 0.1, 2.675, 123.456789"))
        .unwrap_or_else(|error| panic!("{}", error.to_string()));
    let ExtensionValue::Known(Value::Product(fields)) = &description.extensions[0].value else {
        panic!("known namespace should parse a typed product");
    };
    let Some(Value::Sequence(values)) = field(&fields, "dimensions") else {
        panic!("shape dimensions should be a sequence");
    };
    let expected = [0.0001f64, 1.5, 0.1, 2.675, 123.456789];
    for (value, expected) in values.iter().zip(expected) {
        let Value::Number(number) = value else {
            panic!("a fraction should parse as a finite number");
        };
        assert_eq!(number.to_bits(), expected.to_bits());
    }
}

#[test]
fn signed_and_oversized_number_literals_are_refused() {
    let error = parse_description(&shape_source("-3")).expect_err("signed literals are refused");
    assert!(error.to_string().contains("unsupported number literal `-3`"));
    let error = parse_description(&shape_source("0.00000000000000000000001"))
        .expect_err("more than 22 fraction digits are refused");
    assert!(error.to_string().contains("unsupported number literal"));
}
