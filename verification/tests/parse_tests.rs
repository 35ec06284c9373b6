use i3s_schema::parse::{
    extract_enum_values, is_deprecated, parse_base_name, parse_description, parse_examples,
    parse_md_content, parse_profile, parse_properties_table, parse_type_column, parse_type_name,
    should_skip, strip_html_tags, TypeDesc,
};

fn reference(t: &TypeDesc) -> (String, String, String) {
    match t {
        TypeDesc::Reference { name, base_name, profile } => (name.clone(), base_name.clone(), profile.clone()),
        _ => panic!("not a reference"),
    }
}

#[test]
fn reference_columns() {
    let t = parse_type_column("[obb](obb.cmn.md)");
    assert_eq!(reference(&t), ("obb".to_string(), "obb".to_string(), "cmn".to_string()));
    let t = parse_type_column(" [node](Node.PCSL.md)[] ");
    match t {
        TypeDesc::Array { element } => {
            assert_eq!(reference(&element), ("node".to_string(), "node".to_string(), "pcsl".to_string()))
        }
        _ => panic!("not an array"),
    }
    let t = parse_type_column("[x](y.md)");
    assert_eq!(reference(&t), ("x".to_string(), "y.md".to_string(), "cmn".to_string()));
}

#[test]
fn primitive_columns() {
    match parse_type_column("number[3]") {
        TypeDesc::FixedArray { element_type, size } => {
            assert_eq!(element_type, "number");
            assert_eq!(size, 3);
        }
        _ => panic!("not a fixed array"),
    }
    match parse_type_column("string[1:2]") {
        TypeDesc::Array { element } => match *element {
            TypeDesc::Primitive { name } => assert_eq!(name, "string"),
            _ => panic!("not a primitive"),
        },
        _ => panic!("not an array"),
    }
    match parse_type_column("integer") {
        TypeDesc::Primitive { name } => assert_eq!(name, "integer"),
        _ => panic!("not a primitive"),
    }
    match parse_type_column("string, number") {
        TypeDesc::Union { types } => assert_eq!(types, vec!["string".to_string(), "number".to_string()]),
        _ => panic!("not a union"),
    }
    match parse_type_column("[]") {
        TypeDesc::Array { element } => assert!(matches!(*element, TypeDesc::Unknown)),
        _ => panic!("not an array"),
    }
    assert!(matches!(parse_type_column("object"), TypeDesc::Unknown));
    assert!(matches!(parse_type_column(""), TypeDesc::Unknown));
    assert!(matches!(parse_type_column("string, object"), TypeDesc::Unknown));
    match parse_type_column("number[99999999999]") {
        TypeDesc::FixedArray { size, .. } => assert_eq!(size, 0),
        _ => panic!("not a fixed array"),
    }
}

#[test]
fn file_names() {
    assert_eq!(parse_profile("3DSceneLayer.cmn.md").as_deref(), Some("cmn"));
    assert_eq!(parse_profile("Store.PSL.md").as_deref(), Some("psl"));
    assert_eq!(parse_profile("store.md"), None);
    assert_eq!(parse_profile("x.p\u{17f}l.md").as_deref(), Some("p\u{17f}l"));
    assert_eq!(parse_base_name("3DSceneLayer.cmn.md"), "3dscenelayer");
    assert_eq!(parse_base_name("docs/1.7/node.bld.MD"), "node");
    assert_eq!(parse_base_name("plain.txt"), "plain.txt");
    assert!(should_skip("3DSceneLayer_ReadMe.md"));
    assert!(should_skip("x_README.MD"));
    assert!(should_skip("ECMA_ISO8601.md"));
    assert!(!should_skip("obb.cmn.md"));
}

#[test]
fn deprecation_notes() {
    assert!(is_deprecated("**Deprecated** since 1.7"));
    assert!(is_deprecated("This was deprecated in 1.8 and removed"));
    assert!(is_deprecated("Deprecated with 2.0."));
    assert!(is_deprecated("The field is DEPRECATED. "));
    assert!(!is_deprecated("undeprecated in 1.8"));
    assert!(!is_deprecated("deprecated in version 1.8"));
    assert!(!is_deprecated("A plain description."));
}

#[test]
fn enumeration_values() {
    assert_eq!(
        extract_enum_values("Possible values are:<ul><li>`a`</li><li>`b c`</li></ul>"),
        Some(vec!["a".to_string(), "b c".to_string()])
    );
    assert_eq!(extract_enum_values("<li>``</li>"), None);
    assert_eq!(extract_enum_values("none"), None);
}

#[test]
fn html_is_stripped() {
    assert_eq!(strip_html_tags(" a<br/>b <sup>1</sup> "), "ab 1");
    assert_eq!(strip_html_tags("x <> y"), "x <> y");
    assert_eq!(strip_html_tags("\u{1c}<i>a</i>\u{1f} "), "a");
    assert_eq!(strip_html_tags("\u{1c}"), "");
    assert_eq!(strip_html_tags("  <b>bold</b> text<br/> "), "bold text");
}

const SAMPLE: &str = "# Node [common]\n\nThe node of a tree.\nIt has children.\n\n### Related:\n\n### Properties\n\n| Property | Type | Description |\n| --- | --- | --- |\n| **id** | integer | The id. |\n| kind | string | Kind.<ul><li>`a`</li><li>`b`</li></ul> |\n| mbs | number[4] | **Deprecated** bounds. |\n| odd | widget | ? |\n\nAfter.\n\n### Examples\n\n#### Example: Simple\n\n```json\n{ \"id\": 1 }\n```\n";

#[test]
fn headings_and_descriptions() {
    assert_eq!(parse_type_name(SAMPLE).as_deref(), Some("Node"));
    assert_eq!(parse_type_name("Node\n# x"), None);
    assert_eq!(parse_description(SAMPLE), "The node of a tree. It has children.");
    assert_eq!(parse_description("# T\n"), "");
}

#[test]
fn properties_table() {
    let mut warnings = Vec::new();
    let props = parse_properties_table(SAMPLE, "1.7/node.cmn.md", &mut warnings);
    assert_eq!(props.len(), 4);
    assert_eq!(props[0].name, "id");
    assert!(props[0].required);
    assert!(!props[1].required);
    assert_eq!(props[1].enum_values, Some(vec!["a".to_string(), "b".to_string()]));
    assert_eq!(props[1].description, "Kind.`a``b`");
    assert!(props[2].deprecated);
    assert!(matches!(props[3].type_desc, TypeDesc::Unknown));
    assert_eq!(
        warnings,
        vec!["unparsed type expression \"widget\" for property \"odd\" in 1.7/node.cmn.md: treated as unconstrained"
            .to_string()]
    );
}

#[test]
fn examples() {
    let ex = parse_examples(SAMPLE);
    assert_eq!(ex.len(), 1);
    assert_eq!(ex[0].name, "Simple");
    assert_eq!(ex[0].json, "{ \"id\": 1 }");
}

#[test]
fn markdown_files() {
    let mut warnings = Vec::new();
    let e = parse_md_content("node.cmn.md", "1.7/node.cmn.md", &SAMPLE.replace('\n', "\r\n"), &mut warnings)
        .expect("a type");
    assert_eq!(e.name, "Node");
    assert_eq!(e.base_name, "node");
    assert_eq!(e.profile, "cmn");
    assert_eq!(e.module, "cmn");
    assert_eq!(e.source_file, "1.7/node.cmn.md");
    assert_eq!(e.description, "The node of a tree. It has children.");
    assert_eq!(e.properties.len(), 4);
    assert_eq!(e.examples.len(), 1);
    assert!(!e.deprecated);
    assert_eq!(warnings.len(), 1);
    let mut warnings = Vec::new();
    assert!(parse_md_content("node_ReadMe.md", "x", SAMPLE, &mut warnings).is_none());
    assert!(parse_md_content("node.md", "x", SAMPLE, &mut warnings).is_none());
    assert!(parse_md_content("node.cmn.md", "x", "no heading", &mut warnings).is_none());
    assert!(warnings.is_empty());
}
