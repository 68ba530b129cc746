use grimoire::{parse_description, serialize_description, ExtensionValue, Value};

const CORE: &str = r#"
    grimoire 1.0.0
    description @d "core" {
        core-spec 1.0.0;
        core {
            block @b "Block" {
                port @b/input "input";
                port @b/output "output";
            }
            block @c "Consumer" { port @c/input; }
            connection @flow @b/output -> @c/input;
            group @all "all" { @b, @c, @flow; }
        }
    }
"#;

const KNOWN_EXTENSION: &str = r#"
    grimoire 1.0.0
    description @d {
        core-spec 1.0.0;
        extensions {
            extension "https://github.com/goldenwitch/grimoire/extension/axes" axis schema axes @1.0.0 = {
                name: "frames",
                description: absent
            };
        }
        core { block @b "Block" { port @b/input; } }
    }
"#;

const UNKNOWN_EXTENSION: &str = "grimoire 1.0.0 description @d {\n    core-spec 1.0.0;\n    extensions {\n        extension \"https://other.example/opaque\" payload schema unknown @1.0.0 = { value: \"keep\" # retained\n        };\n    }\n    core { block @b \"Block\" { port @b/input; } }\n}\n";

const LAYERED: &str = r#"
    grimoire 1.0.0
    description @d {
        core-spec 1.0.0;
        core { block @b "Block" { port @b/input; } }
        layer "view" {
            inputs { core };
            consumes {
                projection-language 1.0.0;
                schemas {
                    "https://github.com/goldenwitch/grimoire/extension" / shapes @1.0.0;
                }
            }
            projection {
                select { use @b; }
                decorate {
                    on @b extension "https://github.com/goldenwitch/grimoire/extension/architecture" family schema architecture @1.0.0 = { family: "encoder" };
                }
                checks {
                    check family-present expect nonempty over "https://github.com/goldenwitch/grimoire/extension/architecture" family;
                }
            }
        }
    }
"#;

#[test]
fn canonical_core_serialization_round_trips() {
    let parsed = parse_description(CORE).unwrap_or_else(|error| panic!("{}", error.to_string()));
    let serialized = serialize_description(&parsed).unwrap_or_else(|error| panic!("{}", error.to_string()));
    let reparsed = parse_description(&serialized).unwrap_or_else(|error| panic!("{}", error.to_string()));
    assert_eq!(reparsed, parsed);
    assert_eq!(serialize_description(&reparsed).unwrap(), serialized);
}

#[test]
fn known_extension_values_are_canonicalized_and_round_trip() {
    let parsed = parse_description(KNOWN_EXTENSION).unwrap_or_else(|error| panic!("{}", error.to_string()));
    let serialized = serialize_description(&parsed).unwrap_or_else(|error| panic!("{}", error.to_string()));
    let reparsed = parse_description(&serialized).unwrap_or_else(|error| panic!("{}", error.to_string()));
    assert_eq!(reparsed, parsed);
    let ExtensionValue::Known(Value::Product(fields)) = &reparsed.extensions[0].value else {
        panic!("expected a typed extension value");
    };
    assert_eq!(
        fields.iter().find(|(name, _)| name == "name").map(|(_, value)| value),
        Some(&Value::Text("frames".to_owned()))
    );
}

#[test]
fn unknown_extension_bytes_survive_serialization() {
    let parsed = parse_description(UNKNOWN_EXTENSION).unwrap_or_else(|error| panic!("{}", error.to_string()));
    let ExtensionValue::Opaque(raw) = &parsed.extensions[0].value else {
        panic!("expected an opaque extension value");
    };
    let expected = String::from_utf8_lossy(raw).to_string();
    let serialized = serialize_description(&parsed).unwrap_or_else(|error| panic!("{}", error.to_string()));
    assert!(serialized.contains(&expected));
    let reparsed = parse_description(&serialized).unwrap_or_else(|error| panic!("{}", error.to_string()));
    let ExtensionValue::Opaque(reparsed_raw) = &reparsed.extensions[0].value else {
        panic!("expected an opaque extension value after round-trip");
    };
    assert_eq!(reparsed_raw, raw);
}

#[test]
fn layered_projection_serialization_round_trips() {
    let parsed = parse_description(LAYERED).unwrap_or_else(|error| panic!("{}", error.to_string()));
    let serialized = serialize_description(&parsed).unwrap_or_else(|error| panic!("{}", error.to_string()));
    let reparsed = parse_description(&serialized).unwrap_or_else(|error| panic!("{}", error.to_string()));
    assert_eq!(reparsed, parsed);
    assert_eq!(serialize_description(&reparsed).unwrap(), serialized);
}

#[test]
fn invalid_opaque_bytes_are_rejected_by_text_serializer() {
    let mut parsed = parse_description(CORE).unwrap_or_else(|error| panic!("{}", error.to_string()));
    parsed.extensions.push(grimoire::ExtensionParameter {
        namespace: grimoire::Namespace::parse("https://other.example/opaque").unwrap(),
        name: "payload".to_owned(),
        schema: "unknown".to_owned(),
        version: grimoire::Version::new(1, 0, 0),
        value: ExtensionValue::Opaque(vec![0xff]),
    });
    assert!(serialize_description(&parsed).is_err());
}

#[test]
fn layers_and_schema_uses_are_written_in_canonical_order() {
    let source = r#"
    grimoire 1.0.0
    description @d {
        core-spec 1.0.0;
        core { block @b "Block" { port @b/input; } }
        layer "zeta" {
            inputs { core };
            consumes {
                projection-language 1.0.0;
                schemas {
                    "https://github.com/goldenwitch/grimoire/extension/shapes" / shapes @1.0.0;
                    "https://github.com/goldenwitch/grimoire/extension/axes" / axes @1.0.0;
                }
            }
            projection { select { use @b; } }
        }
        layer "alpha" {
            inputs { core };
            consumes { projection-language 1.0.0; schemas { } }
            projection { select { use @b; } invert { group @b; } }
        }
    }
"#;
    let parsed = parse_description(source).unwrap_or_else(|error| panic!("{}", error.to_string()));
    let serialized = serialize_description(&parsed).unwrap_or_else(|error| panic!("{}", error.to_string()));
    let alpha = serialized.find("layer \"alpha\"").expect("alpha is written");
    let zeta = serialized.find("layer \"zeta\"").expect("zeta is written");
    assert!(alpha < zeta);
    let axes = serialized.find("/ axes @1.0.0;").expect("axes use is written");
    let shapes = serialized.find("/ shapes @1.0.0;").expect("shapes use is written");
    assert!(axes < shapes);
    assert!(serialized.contains("            invert {\n                group @b;\n            }\n"));
    assert!(serialized.starts_with("grimoire 1.0.0\ndescription @d {\n    core-spec 1.0.0;\n    core {\n"));
}

#[test]
fn whole_numbers_have_a_canonical_text() {
    let mut parsed = parse_description(CORE).unwrap_or_else(|error| panic!("{}", error.to_string()));
    parsed.extensions.push(grimoire::ExtensionParameter {
        namespace: grimoire::Namespace::parse("https://github.com/goldenwitch/grimoire/extension/measurement").unwrap(),
        name: "m".to_owned(),
        schema: "measurement".to_owned(),
        version: grimoire::Version::new(1, 0, 0),
        value: ExtensionValue::Known(Value::Number(grimoire::FiniteNumber::zero())),
    });
    let serialized = serialize_description(&parsed).unwrap_or_else(|error| panic!("{}", error.to_string()));
    assert!(serialized.contains("schema measurement @1.0.0 = 0;"));
    parsed.extensions[0].value =
        ExtensionValue::Known(Value::Number(grimoire::FiniteNumber::from_bits(50.0f64.to_bits()).unwrap()));
    let serialized = serialize_description(&parsed).unwrap_or_else(|error| panic!("{}", error.to_string()));
    assert!(serialized.contains("schema measurement @1.0.0 = 50;"));
    parsed.extensions[0].value =
        ExtensionValue::Known(Value::Number(grimoire::FiniteNumber::from_bits((-0.0f64).to_bits()).unwrap()));
    let serialized = serialize_description(&parsed).unwrap_or_else(|error| panic!("{}", error.to_string()));
    assert!(serialized.contains("schema measurement @1.0.0 = -0;"));
    parsed.extensions[0].value =
        ExtensionValue::Known(Value::Number(grimoire::FiniteNumber::from_bits((-7.0f64).to_bits()).unwrap()));
    let serialized = serialize_description(&parsed).unwrap_or_else(|error| panic!("{}", error.to_string()));
    assert!(serialized.contains("schema measurement @1.0.0 = -7;"));
    parsed.extensions[0].value =
        ExtensionValue::Known(Value::Number(grimoire::FiniteNumber::from_bits(1.5f64.to_bits()).unwrap()));
    let error = serialize_description(&parsed).expect_err("a fractional number has no text here");
    assert_eq!(error.to_string(), "only a whole finite number below 2^53 has a canonical text");
}

#[test]
fn invalid_opaque_bytes_report_the_payload() {
    let mut parsed = parse_description(CORE).unwrap_or_else(|error| panic!("{}", error.to_string()));
    parsed.extensions.push(grimoire::ExtensionParameter {
        namespace: grimoire::Namespace::parse("https://other.example/opaque").unwrap(),
        name: "payload".to_owned(),
        schema: "unknown".to_owned(),
        version: grimoire::Version::new(1, 0, 0),
        value: ExtensionValue::Opaque(vec![0xff]),
    });
    let error = serialize_description(&parsed).expect_err("invalid UTF-8 has no text");
    assert_eq!(error.to_string(), "opaque extension payload is not valid UTF-8");
}

#[test]
fn written_labels_read_back_unchanged() {
    let mut parsed = parse_description(CORE).unwrap_or_else(|error| panic!("{}", error.to_string()));
    let label = "quote \" slash \\ line\nfeed tab\t bell \u{7} del \u{7f} é ✓".to_owned();
    parsed.label = Some(label.clone());
    let serialized = serialize_description(&parsed).unwrap_or_else(|error| panic!("{}", error.to_string()));
    assert!(serialized.contains("\\u0007"));
    assert!(serialized.contains("\\u007f"));
    let reparsed = parse_description(&serialized).unwrap_or_else(|error| panic!("{}", error.to_string()));
    assert_eq!(reparsed.label, Some(label));
}

#[test]
fn header_only_description_reads_back_from_its_canonical_text() {
    let text = "grimoire 1.0.0\ndescription @empty \"Empty \\\"one\\\"\" {\n    core-spec 2.3.4;\n    core {\n    }\n}\n";
    let description = parse_description(text).unwrap_or_else(|error| panic!("{error:?}"));
    assert_eq!(description.address.as_str(), "@empty");
    assert_eq!(description.label.as_deref(), Some("Empty \"one\""));
    assert!(description.layers.is_empty());
    let serialized = serialize_description(&description).unwrap_or_else(|error| panic!("{error:?}"));
    assert_eq!(serialized, text);
}

#[test]
fn unlabelled_header_only_description_reads_back() {
    let text = "grimoire 1.0.0\ndescription @bare {\n    core-spec 1.0.0;\n    core {\n    }\n}\n";
    let description = parse_description(text).unwrap_or_else(|error| panic!("{error:?}"));
    assert_eq!(description.label, None);
    let serialized = serialize_description(&description).unwrap_or_else(|error| panic!("{error:?}"));
    assert_eq!(serialized, text);
}
