use i3s_schema::catalog::{
    is_json_file, is_markdown_file, sort_names, sort_newest_first, version_dir, version_label, IrBuilder,
};
use i3s_schema::json::{write_json, JsonValue};
use i3s_schema::layout::{changed_files, docs_path, extra_files, out_path, profile_dirs, resolve_docs_dir};
use i3s_schema::parse::{Example, Property, TypeDesc, TypeEntry};
use i3s_schema::schema::{canonical_names, clean_description, render_schemas, type_desc_schema, type_schema};
use i3s_schema::validate::SchemaStore;

fn text(v: &JsonValue) -> String {
    let mut out = Vec::new();
    write_json(v, &mut out);
    out.into_iter().collect()
}

fn prop(name: &str, t: TypeDesc, required: bool, description: &str, enums: Option<Vec<&str>>) -> Property {
    Property {
        name: name.to_string(),
        type_desc: t,
        required,
        description: description.to_string(),
        enum_values: enums.map(|v| v.into_iter().map(|x| x.to_string()).collect()),
        deprecated: false,
    }
}

fn entry(name: &str, base: &str, profile: &str, properties: Vec<Property>) -> TypeEntry {
    TypeEntry {
        name: name.to_string(),
        base_name: base.to_string(),
        profile: profile.to_string(),
        module: profile.to_string(),
        description: String::new(),
        properties,
        examples: vec![Example { name: "e".to_string(), json: "{}".to_string() }],
        source_file: String::new(),
        deprecated: false,
    }
}

fn reference(name: &str, base: &str, profile: &str) -> TypeDesc {
    TypeDesc::Reference { name: name.to_string(), base_name: base.to_string(), profile: profile.to_string() }
}

#[test]
fn descriptions_are_cleaned() {
    assert_eq!(
        clean_description("A <sup>1</sup>type.Possible values:``a``  and  more "),
        "A 1type. Possible values: `a` and more"
    );
    assert_eq!(clean_description("see a,`b` and fulfills.{point}"), "see a, `b` and fulfills. {point}");
    assert_eq!(clean_description("e.g.X and A.B.C"), "e.g. X and A. B. C");
    assert_eq!(clean_description("x.A.{b}"), "x. A. {b}");
    assert_eq!(clean_description("   "), "");
    assert_eq!(clean_description("caf\u{e9}.Next"), "caf\u{e9}. Next");
    assert_eq!(clean_description("-.Next"), "-.Next");
}

#[test]
fn cleaning_keeps_the_wording() {
    let input = "Use <b>it</b>.Then:``x``,`y`  and\tz.";
    let out = clean_description(input);
    assert_eq!(out, "Use it. Then: `x`,`y` and\tz.");
    let keep = |s: &str| -> String { s.chars().filter(|c| !c.is_whitespace() && *c != '`').collect() };
    assert_eq!(keep(&out), keep("Use it.Then:``x``,`y`  and\tz."));
}

#[test]
fn a_type_schema() {
    let mut e = entry(
        "Node",
        "node",
        "psl",
        vec![
            prop("id", TypeDesc::Primitive { name: "integer".to_string() }, true, "The id.", None),
            prop(
                "kinds",
                TypeDesc::Array { element: Box::new(TypeDesc::Primitive { name: "string".to_string() }) },
                false,
                "",
                Some(vec!["a", "b"]),
            ),
            prop("mode", TypeDesc::Union { types: vec!["string".to_string(), "number".to_string()] }, false, "", Some(vec!["x"])),
            prop("obb", reference("obb", "OBB", "cmn"), false, "", None),
            prop("store", reference("store", "Store", "psl"), true, "", None),
            prop("box", TypeDesc::FixedArray { element_type: "number".to_string(), size: 3 }, false, "", None),
            prop("(identifier)", TypeDesc::Unknown, true, "", None),
        ],
    );
    e.description = "A node.".to_string();
    e.deprecated = true;
    let canonical = vec![("obb:cmn".to_string(), "obb".to_string())];
    let v = type_schema(&e, &vec!["1.8".to_string(), "1.7".to_string()], &canonical);
    assert_eq!(
        text(&v),
        String::from("{\"$schema\":\"http://json-schema.org/draft-07/schema#\",")
            + "\"additionalProperties\":{},"
            + "\"deprecated\":true,"
            + "\"description\":\"A node.\","
            + "\"properties\":{"
            + "\"box\":{\"items\":{\"type\":\"number\"},\"maxItems\":3,\"minItems\":3,\"type\":\"array\"},"
            + "\"id\":{\"description\":\"The id.\",\"type\":\"integer\"},"
            + "\"kinds\":{\"items\":{\"enum\":[\"a\",\"b\"],\"type\":\"string\"},\"type\":\"array\"},"
            + "\"mode\":{\"enum\":[\"x\"],\"type\":[\"string\",\"number\"]},"
            + "\"obb\":{\"$ref\":\"cmn/obb.schema.json\"},"
            + "\"store\":{\"$ref\":\"Store.schema.json\"}},"
            + "\"required\":[\"id\",\"store\"],"
            + "\"title\":\"Node\","
            + "\"type\":\"object\","
            + "\"x-i3s-versions\":[\"1.8\",\"1.7\"]}"
    );
}

#[test]
fn a_bare_type_schema() {
    let e = entry("Empty", "empty", "cmn", vec![]);
    let v = type_schema(&e, &vec![], &vec![]);
    assert_eq!(
        text(&v),
        "{\"$schema\":\"http://json-schema.org/draft-07/schema#\",\"properties\":{},\"title\":\"Empty\",\"type\":\"object\"}"
    );
}

fn builder_ir() -> (i3s_schema::parse::Ir, Vec<(String, Vec<String>)>) {
    let mut b = IrBuilder::new();
    b.add(1, 8, entry("OBB", "OBB", "cmn", vec![]));
    b.add(1, 8, entry("Node", "node", "psl", vec![prop("obb", reference("obb", "obb", "cmn"), false, "", None)]));
    b.add(1, 7, entry("Obb old", "obb", "cmn", vec![]));
    b.add(1, 7, entry("Store", "store", "bld", vec![]));
    b.finish(&vec!["1.8".to_string(), "1.7".to_string()])
}

#[test]
fn the_newest_definition_wins() {
    let (ir, versions) = builder_ir();
    assert_eq!(ir.version, "1.8+1.7");
    let names: Vec<&str> = ir.modules.iter().map(|(m, _)| m.as_str()).collect();
    assert_eq!(names, vec!["bld", "cmn", "psl"]);
    assert_eq!(ir.modules[1].1.types.len(), 1);
    assert_eq!(ir.modules[1].1.types[0].name, "OBB");
    assert_eq!(
        versions,
        vec![
            ("node:psl".to_string(), vec!["1.8".to_string()]),
            ("obb:cmn".to_string(), vec!["1.7".to_string(), "1.8".to_string()]),
            ("store:bld".to_string(), vec!["1.7".to_string()]),
        ]
    );
}

#[test]
fn canonical_names_and_rendering() {
    let (ir, versions) = builder_ir();
    assert_eq!(
        canonical_names(&ir),
        vec![
            ("node:psl".to_string(), "node".to_string()),
            ("obb".to_string(), "OBB".to_string()),
            ("obb:cmn".to_string(), "OBB".to_string()),
            ("store:bld".to_string(), "store".to_string()),
        ]
    );
    let docs = render_schemas(&ir, &versions);
    let paths: Vec<&str> = docs.iter().map(|(p, _)| p.as_str()).collect();
    assert_eq!(paths, vec!["bld/store.schema.json", "cmn/OBB.schema.json", "psl/node.schema.json"]);
    assert!(text(&docs[2].1).contains("\"obb\":{\"$ref\":\"cmn/OBB.schema.json\"}"));
    assert!(text(&docs[1].1).ends_with("\"x-i3s-versions\":[\"1.7\",\"1.8\"]}"));
}

#[test]
fn version_directories() {
    assert_eq!(version_dir("1.7"), Ok(Some((1, 7))));
    assert_eq!(version_dir("01.10"), Ok(Some((1, 10))));
    assert_eq!(version_dir("docs"), Ok(None));
    assert_eq!(version_dir("1."), Ok(None));
    assert_eq!(version_dir(".7"), Ok(None));
    assert_eq!(version_dir("1.7.1"), Ok(None));
    assert_eq!(version_dir("1.99999999999"), Err("bad version dir name: 1.99999999999".to_string()));
    assert_eq!(version_dir("\u{661}.\u{662}"), Err("bad version dir name: \u{661}.\u{662}".to_string()));
    assert_eq!(version_label(2, 0), "2.0");
    assert_eq!(version_label(1, 10), "1.10");
}

#[test]
fn versions_are_read_newest_first() {
    let dirs = vec![
        (1, 7, "1.7".to_string()),
        (2, 0, "2.0".to_string()),
        (1, 10, "1.10".to_string()),
        (1, 7, "1.07".to_string()),
    ];
    let sorted: Vec<String> = sort_newest_first(dirs).into_iter().map(|(_, _, n)| n).collect();
    assert_eq!(sorted, vec!["2.0", "1.10", "1.7", "1.07"]);
}

#[test]
fn markdown_and_json_files() {
    assert!(is_markdown_file("a.md"));
    assert!(is_markdown_file("a.cmn.MD"));
    assert!(!is_markdown_file(".md"));
    assert!(!is_markdown_file("a.md.bak"));
    assert!(!is_markdown_file("md"));
    assert!(is_json_file("x.schema.json"));
    assert!(!is_json_file("x.JSON"));
    assert_eq!(
        sort_names(vec!["b.md".to_string(), "B.md".to_string(), "a.md".to_string()]),
        vec!["B.md".to_string(), "a.md".to_string(), "b.md".to_string()]
    );
}

#[test]
fn output_layout() {
    assert_eq!(docs_path("spec"), "spec/docs");
    assert_eq!(docs_path("spec/"), "spec/docs");
    assert_eq!(docs_path(""), "docs");
    assert_eq!(resolve_docs_dir("spec", true), "spec/docs");
    assert_eq!(resolve_docs_dir("spec/docs", false), "spec/docs");
    assert_eq!(out_path("cmn/obb.schema.json"), "cmn/obb.schema.json");
    assert_eq!(profile_dirs(), vec!["cmn", "bld", "psl", "pcsl"]);
    let files = vec![
        ("cmn/a.schema.json".to_string(), "A".to_string()),
        ("cmn/b.schema.json".to_string(), "B".to_string()),
    ];
    assert_eq!(changed_files(&files, &vec!["A".to_string(), "".to_string()]), vec![1]);
    assert_eq!(
        extra_files(&files, &vec!["cmn/b.schema.json".to_string(), "cmn/c.schema.json".to_string()]),
        vec![1]
    );
}

#[test]
fn rendered_references_resolve_in_the_store() {
    let (ir, versions) = builder_ir();
    let mut store = SchemaStore::new();
    for (path, doc) in render_schemas(&ir, &versions) {
        let (profile, name) = path.split_once('/').unwrap();
        store.insert(profile, name, doc);
    }
    let node = JsonValue::Object(vec![("obb".to_string(), JsonValue::Object(vec![]))]);
    assert_eq!(store.validate("psl", "node.schema.json", &node), Vec::<String>::new());
    let bad = JsonValue::Object(vec![("obb".to_string(), JsonValue::Null)]);
    assert_eq!(
        store.validate("psl", "node.schema.json", &bad),
        vec!["$.obb: expected object, got null".to_string()]
    );
}

#[test]
fn property_type_schemas() {
    let canonical = vec![("obb:cmn".to_string(), "OBB".to_string())];
    assert_eq!(text(&type_desc_schema(&reference("obb", "obb", "cmn"), "psl", &canonical)), "{\"$ref\":\"cmn/OBB.schema.json\"}");
    assert_eq!(text(&type_desc_schema(&reference("obb", "obb", "cmn"), "cmn", &canonical)), "{\"$ref\":\"OBB.schema.json\"}");
    assert_eq!(text(&type_desc_schema(&TypeDesc::Unknown, "cmn", &canonical)), "{}");
    assert_eq!(
        text(&type_desc_schema(&TypeDesc::Array { element: Box::new(TypeDesc::Unknown) }, "cmn", &canonical)),
        "{\"items\":{},\"type\":\"array\"}"
    );
}
