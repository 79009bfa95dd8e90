use wrt::codex::{discover_args, PROMPT_TEXT, SCHEMA_TEXT};

fn must_be_object(v: &serde_json::Value) -> &serde_json::Map<String, serde_json::Value> {
    v.as_object().expect("object")
}

fn check_required_includes_all_properties(schema: &serde_json::Value) {
    // The validation of response formats is stricter than JSON Schema in general: an
    // object that defines properties must define required and name every property in it.
    if let Some(props) = schema.get("properties").and_then(|v| v.as_object()) {
        let required = schema
            .get("required")
            .and_then(|v| v.as_array())
            .expect("object schema with properties must have required array");

        for k in props.keys() {
            let ok = required.iter().any(|x| x.as_str() == Some(k.as_str()));
            assert!(ok, "required missing property key: {k}");
        }

        // Recurse into property schemas.
        for v in props.values() {
            check_required_includes_all_properties(v);
        }
    }

    // Recurse into array item schemas.
    if let Some(items) = schema.get("items") {
        check_required_includes_all_properties(items);
    }
}

#[test]
fn embedded_schema_meets_codex_required_rules() {
    let v: serde_json::Value = serde_json::from_slice(SCHEMA_TEXT.as_bytes()).expect("schema json");
    check_required_includes_all_properties(&v);

    // Quick regression for the reported failure.
    let pm = must_be_object(&v)["properties"]["package_manager"].clone();
    let req = pm
        .get("required")
        .and_then(|v| v.as_array())
        .expect("package_manager.required");
    assert!(req.iter().any(|x| x.as_str() == Some("notes")));
}

#[test]
fn embedded_prompt_mentions_null_for_unknown_fields() {
    assert!(PROMPT_TEXT.contains("use null"));
    assert!(PROMPT_TEXT.contains("Do not omit"));
}

#[test]
fn embedded_schema_names_the_fields_of_a_discovery() {
    let v: serde_json::Value = serde_json::from_slice(SCHEMA_TEXT.as_bytes()).expect("schema json");
    let props = must_be_object(&must_be_object(&v)["properties"]);
    let mut keys: Vec<&str> = props.keys().map(|k| k.as_str()).collect();
    keys.sort();
    assert_eq!(
        keys,
        ["database", "notes", "package_manager", "port_block_size", "services", "supabase", "version"]
    );
    assert!(SCHEMA_TEXT.ends_with("}\n"));
}

#[test]
fn discover_args_name_schema_and_output() {
    let fixed = ["exec", PROMPT_TEXT, "--output-schema", "/t/schema.json", "-o", "/t/out.json"];
    assert_eq!(discover_args("/t/schema.json", "/t/out.json", None), fixed);
    assert_eq!(discover_args("/t/schema.json", "/t/out.json", Some("")), fixed);
    assert_eq!(discover_args("/t/schema.json", "/t/out.json", Some(" \n")), fixed);
    let mut with_model: Vec<&str> = fixed.to_vec();
    with_model.push("--model");
    with_model.push("gpt-x");
    assert_eq!(discover_args("/t/schema.json", "/t/out.json", Some(" gpt-x ")), with_model);
}
