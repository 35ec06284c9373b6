use i3s_schema::json::{write_json, JsonNumber, JsonValue, NumberKind};
use i3s_schema::parse::{Example, Ir, ModuleData, TypeEntry};
use i3s_schema::validate::{normalize_relative, type_of, validate_examples, SchemaStore};

fn text(v: &JsonValue) -> String {
    let mut out = Vec::new();
    write_json(v, &mut out);
    out.into_iter().collect()
}

fn s(x: &str) -> JsonValue {
    JsonValue::String(x.to_string())
}

fn num(n: u64) -> JsonValue {
    JsonValue::Number(JsonNumber { kind: NumberKind::PosInt(n), text: n.to_string() })
}

fn obj(fields: Vec<(&str, JsonValue)>) -> JsonValue {
    JsonValue::Object(fields.into_iter().map(|(k, v)| (k.to_string(), v)).collect())
}

#[test]
fn parent_reference_resolves_across_profiles() {
    assert_eq!(
        normalize_relative("pcsl/", "../cmn/obb.schema.json").as_deref(),
        Some("cmn/obb.schema.json")
    );
}

#[test]
fn same_directory_reference_keeps_profile() {
    assert_eq!(
        normalize_relative("psl/", "./store.schema.json").as_deref(),
        Some("psl/store.schema.json")
    );
}

#[test]
fn escaping_the_schema_root_is_rejected() {
    assert_eq!(normalize_relative("cmn/", "../../etc/passwd"), None);
}

#[test]
fn normalize_skips_dot_and_empty_segments() {
    assert_eq!(normalize_relative("a/b/", "././/c.json").as_deref(), Some("a/b/c.json"));
    assert_eq!(normalize_relative("a/", "../x.json").as_deref(), Some("x.json"));
    assert_eq!(normalize_relative("", "../x.json"), None);
}

#[test]
fn type_names_of_values() {
    assert_eq!(type_of(&JsonValue::Null), "null");
    assert_eq!(type_of(&JsonValue::Bool(true)), "boolean");
    assert_eq!(type_of(&num(3)), "number");
    assert_eq!(type_of(&s("x")), "string");
    assert_eq!(type_of(&JsonValue::Array(vec![])), "array");
    assert_eq!(type_of(&obj(vec![])), "object");
}

fn sample_store() -> SchemaStore {
    let mut store = SchemaStore::new();
    let node = obj(vec![
        (
            "properties",
            obj(vec![
                ("id", obj(vec![("type", s("integer"))])),
                ("kind", obj(vec![("enum", JsonValue::Array(vec![s("a"), s("b")])), ("type", s("string"))])),
                ("obb", obj(vec![("$ref", s("../cmn/OBB.schema.json"))])),
                (
                    "mbs",
                    obj(vec![
                        ("items", obj(vec![("type", s("number"))])),
                        ("maxItems", num(4)),
                        ("minItems", num(4)),
                        ("type", s("array")),
                    ]),
                ),
            ]),
        ),
        ("required", JsonValue::Array(vec![s("id")])),
        ("type", s("object")),
    ]);
    let obb = obj(vec![
        ("properties", obj(vec![("center", obj(vec![("type", s("array"))]))])),
        ("type", s("object")),
    ]);
    store.insert("psl", "node.schema.json", node);
    store.insert("cmn", "obb.schema.json", obb);
    store
}

#[test]
fn a_valid_instance_has_no_errors() {
    let store = sample_store();
    let inst = obj(vec![("id", num(1)), ("kind", s("a")), ("obb", obj(vec![("center", JsonValue::Array(vec![]))]))]);
    assert_eq!(store.validate("psl", "node.schema.json", &inst), Vec::<String>::new());
}

#[test]
fn validation_reports_each_failed_check() {
    let store = sample_store();
    let inst = obj(vec![
        ("kind", s("c")),
        ("mbs", JsonValue::Array(vec![num(1), s("x")])),
        ("obb", obj(vec![("center", s("no"))])),
    ]);
    assert_eq!(
        store.validate("psl", "node.schema.json", &inst),
        vec![
            "$: missing required property \"id\"".to_string(),
            "$.kind: value \"c\" not in enum".to_string(),
            "$.mbs: array length 2 < minItems 4".to_string(),
            "$.mbs[1]: expected number, got string".to_string(),
            "$.obb.center: expected array, got string".to_string(),
        ]
    );
}

#[test]
fn a_missing_schema_is_reported() {
    let store = sample_store();
    assert_eq!(
        store.validate("bld", "nothing.schema.json", &JsonValue::Null),
        vec!["schema not found: bld/nothing.schema.json".to_string()]
    );
}

#[test]
fn lookups_ignore_case_and_later_inserts_replace() {
    let mut store = sample_store();
    assert_eq!(store.len(), 2);
    store.insert("CMN", "OBB.schema.json", obj(vec![("type", s("string"))]));
    assert_eq!(store.len(), 2);
    assert_eq!(
        store.validate("cmn", "obb.schema.json", &num(1)),
        vec!["$: expected string, got number".to_string()]
    );
}

#[test]
fn an_unresolved_reference_is_reported() {
    let mut store = SchemaStore::new();
    store.insert("cmn", "a.schema.json", obj(vec![("$ref", s("missing.schema.json"))]));
    assert_eq!(
        store.validate("cmn", "a.schema.json", &JsonValue::Null),
        vec!["$: unresolved $ref \"missing.schema.json\"".to_string()]
    );
}

#[test]
fn an_unknown_schema_type_is_reported() {
    let mut store = SchemaStore::new();
    store.insert("cmn", "a.schema.json", obj(vec![("type", s("thing"))]));
    assert_eq!(
        store.validate("cmn", "a.schema.json", &JsonValue::Null),
        vec![
            "$: unknown schema type \"thing\"".to_string(),
            "$: expected thing, got null".to_string()
        ]
    );
}

#[test]
fn a_reference_cycle_is_reported() {
    let mut store = SchemaStore::new();
    store.insert("cmn", "a.schema.json", obj(vec![("$ref", s("b.schema.json"))]));
    store.insert("cmn", "b.schema.json", obj(vec![("$ref", s("a.schema.json"))]));
    assert_eq!(
        store.validate("cmn", "a.schema.json", &JsonValue::Null),
        vec!["$: $ref cycle at \"b.schema.json\"".to_string()]
    );
}

#[test]
fn maximum_length_is_checked() {
    let mut store = SchemaStore::new();
    store.insert("cmn", "a.schema.json", obj(vec![("maxItems", num(1)), ("type", s("array"))]));
    assert_eq!(
        store.validate("cmn", "a.schema.json", &JsonValue::Array(vec![num(1), num(2)])),
        vec!["$: array length 2 > maxItems 1".to_string()]
    );
}

fn entry(name: &str, base: &str, profile: &str, examples: Vec<(&str, &str)>) -> TypeEntry {
    TypeEntry {
        name: name.to_string(),
        base_name: base.to_string(),
        profile: profile.to_string(),
        module: profile.to_string(),
        description: String::new(),
        properties: vec![],
        examples: examples
            .into_iter()
            .map(|(n, j)| Example { name: n.to_string(), json: j.to_string() })
            .collect(),
        source_file: String::new(),
        deprecated: false,
    }
}

#[test]
fn examples_are_labelled_and_counted() {
    let store = sample_store();
    let ir = Ir {
        version: "1.7".to_string(),
        modules: vec![(
            "psl".to_string(),
            ModuleData {
                types: vec![
                    entry("Node", "node", "psl", vec![("good", "{}"), ("bad", "{")]),
                    entry("Empty", "empty", "psl", vec![]),
                ],
            },
        )],
    };
    let parsed = vec![Some(obj(vec![("id", num(2))])), None];
    let (checked, failures) = validate_examples(&ir, &store, &parsed);
    assert_eq!(checked, 2);
    assert_eq!(failures, vec!["Node[psl] \"bad\": example is not valid JSON".to_string()]);
    let parsed = vec![Some(obj(vec![])), Some(JsonValue::Null)];
    let (checked, failures) = validate_examples(&ir, &store, &parsed);
    assert_eq!(checked, 2);
    assert_eq!(
        failures,
        vec![
            "Node[psl] \"good\": $: missing required property \"id\"".to_string(),
            "Node[psl] \"bad\": $: expected object, got null".to_string(),
        ]
    );
}

#[test]
fn json_text_is_compact() {
    let v = obj(vec![("a", JsonValue::Array(vec![num(1), JsonValue::Bool(false), JsonValue::Null])), ("b", s("q\"\n"))]);
    assert_eq!(text(&v), "{\"a\":[1,false,null],\"b\":\"q\\\"\\n\"}");
}
