#![allow(dead_code)]
use grimoire::{Address, Schema, Value, evaluate_layer, parse_description, prototype_schemas, validate_description};

fn address(value: &str) -> Address {
    Address::parse(value).unwrap_or_else(|error| panic!("{}", error.to_string()))
}

fn schemas() -> Vec<Schema> {
    prototype_schemas().unwrap_or_else(|error| panic!("{:?}", error))
}

fn field<'a>(fields: &'a [(String, Value)], name: &str) -> Option<&'a Value> {
    fields.iter().find(|(field_name, _)| field_name == name).map(|(_, value)| value)
}


const PROVENANCE_LAYER: &str = r#"
    grimoire 1.0.0
    description @d "provenance" {
        core-spec 1.0.0;
        core {
            block @encoder "Encoder" { port @encoder/output; }
            group @model "model" { @encoder; }
        }
        layer "provenance" {
            inputs { core };
            consumes {
                projection-language 1.0.0;
                schemas {
                    "https://github.com/goldenwitch/grimoire/extension/provenance" / provenance @1.0.0;
                }
            }
            projection {
                select { use @model; }
                decorate {
                    on @model extension "https://github.com/goldenwitch/grimoire/extension/provenance" provenance schema provenance @1.0.0 = {
                        citations: ["arXiv:2506.09985"],
                        assumptions: ["the represented composition is authored"],
                        novelty: adapted
                    };
                }
                checks {
                    check provenance-present expect nonempty over "https://github.com/goldenwitch/grimoire/extension/provenance" provenance;
                }
            }
        }
    }
"#;


#[test]
fn provenance_values_do_not_change_selected_structure() {
    let original = parse_description(PROVENANCE_LAYER).unwrap_or_else(|error| panic!("{error:?}"));
    let changed_source = PROVENANCE_LAYER.replace("novelty: adapted", "novelty: existing");
    let changed = parse_description(&changed_source).unwrap_or_else(|error| panic!("{error:?}"));
    let original_result =
        evaluate_layer(&original, "provenance").unwrap_or_else(|error| panic!("{error:?}"));
    let changed_result =
        evaluate_layer(&changed, "provenance").unwrap_or_else(|error| panic!("{error:?}"));
    assert_eq!(original_result.structural, changed_result.structural);
    assert_ne!(original_result.decorations, changed_result.decorations);
}

#[test]
fn provenance_on_a_block_is_rejected_by_the_group_only_schema() {
    let source = PROVENANCE_LAYER.replace("on @model extension", "on @encoder extension");
    let description = parse_description(&source).unwrap_or_else(|error| panic!("{error:?}"));
    let errors = validate_description(&description, &schemas())
        .expect_err("provenance on a block should fail");
    assert!(errors.iter().any(|error| {
        error.check == "C10"
            && error.identifier.as_deref() == Some("provenance")
            && error.message.contains("does not allow Block")
    }));
}

#[test]
fn provenance_value_uses_the_closed_runtime_algebra() {
    let description = parse_description(PROVENANCE_LAYER).unwrap_or_else(|error| panic!("{error:?}"));
    let value = &description.layers[0].projection.decorate[0].parameter.value;
    let grimoire::ExtensionValue::Known(Value::Product(fields)) = value else {
        panic!("expected a known provenance value");
    };
    assert!(matches!(field(&fields, "citations"), Some(Value::Sequence(_))));
}
