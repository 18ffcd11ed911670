use dagger_codegen::codegen::{get_types, CodeGeneration, CodegenError};
use dagger_codegen::handlers::Handler;
use dagger_codegen::naming::replace_query;
use dagger_codegen::schema::{Field, FullType, IntrospectionResponse, Schema, TypeKind};

const HEADER: &str = "// code generated by dagger. DO NOT EDIT.";
const BASE_USE: &str = "use dagger_core::{Boolean, Int};";

fn field(name: &str, of_type: Option<&str>) -> Field {
    Field { name: name.to_string(), of_type: of_type.map(|s| s.to_string()) }
}

fn ty(kind: TypeKind, name: &str) -> FullType {
    FullType {
        kind: Some(kind),
        name: Some(name.to_string()),
        fields: None,
        input_fields: None,
        enum_values: None,
    }
}

fn object(name: &str, fields: Vec<Field>) -> FullType {
    let mut t = ty(TypeKind::Object, name);
    t.fields = Some(fields);
    t
}

fn schema_of(types: Vec<FullType>) -> Schema {
    Schema { types: Some(types.into_iter().map(Some).collect()) }
}

fn generate(schema: &Schema) -> Result<String, CodegenError> {
    CodeGeneration::new().generate_from_schema(schema)
}

#[test]
fn empty_schema_gives_header_and_base_types_only() {
    let out = generate(&schema_of(vec![])).unwrap();
    assert!(out.contains(HEADER));
    assert!(out.contains(BASE_USE));
    let rest = out.replace(HEADER, "").replace(BASE_USE, "");
    assert!(rest.trim().is_empty(), "unexpected output: {:?}", out);
}

#[test]
fn meta_types_are_never_rendered() {
    let schema = schema_of(vec![
        object("__Schema", vec![field("types", Some("__Type"))]),
        ty(TypeKind::Scalar, "_Any"),
        ty(TypeKind::Enum, "__TypeKind"),
        ty(TypeKind::Scalar, "String"),
    ]);
    let out = generate(&schema).unwrap();
    assert!(!out.contains("__Schema"));
    assert!(!out.contains("_Any"));
    assert!(!out.contains("__TypeKind"));
    assert!(out.contains("pub type String = String;"));
}

#[test]
fn query_becomes_client_everywhere_in_a_name() {
    let gen = CodeGeneration::new();
    let name = |n: &str| gen.generated_name(&ty(TypeKind::Object, n));
    assert_eq!(name("Query"), Some("Client".to_string()));
    assert_eq!(name("QueryPayload"), Some("ClientPayload".to_string()));
    assert_eq!(name("MyQueryQuery"), Some("MyClientClient".to_string()));
    assert_eq!(name("Container"), Some("Container".to_string()));
    assert_eq!(name("_Query"), None);
    assert_eq!(replace_query("QuerQueryy"), "QuerClienty");
    assert_eq!(replace_query(""), "");
}

#[test]
fn nameless_type_has_no_identifier() {
    let mut t = ty(TypeKind::Scalar, "X");
    t.name = None;
    assert_eq!(CodeGeneration::new().generated_name(&t), None);
}

#[test]
fn each_type_is_rendered_once_by_its_classifier() {
    let schema = schema_of(vec![
        ty(TypeKind::Scalar, "DateTime"),
        ty(TypeKind::Interface, "Node"),
        ty(TypeKind::Union, "Either"),
    ]);
    let out = generate(&schema).unwrap();
    assert_eq!(out.matches("DateTime").count(), 1);
    assert!(out.contains("pub type DateTime = String;"));
    assert!(!out.contains("Node"));
    assert!(!out.contains("Either"));
}

#[test]
fn generation_is_deterministic() {
    let schema = schema_of(vec![
        object("Query", vec![field("container", Some("Container"))]),
        ty(TypeKind::Scalar, "String"),
    ]);
    assert_eq!(generate(&schema).unwrap(), generate(&schema.clone()).unwrap());
}

#[test]
fn a_failing_renderer_fails_the_whole_call() {
    let schema = schema_of(vec![
        ty(TypeKind::Scalar, "String"),
        object("Container", vec![field("id", Some("String")), field("broken", None)]),
        object("Later", vec![field("x", None)]),
    ]);
    match generate(&schema) {
        Err(CodegenError::Render(e)) => {
            assert_eq!(e.type_label, "Container");
            assert_eq!(e.field, "broken");
        }
        other => panic!("expected a render error, got {:?}", other),
    }
}

#[test]
fn end_to_end_orders_scalars_before_objects() {
    let schema = schema_of(vec![
        object("Query", vec![field("container", Some("Container"))]),
        object("Container", vec![field("id", Some("String"))]),
        ty(TypeKind::Scalar, "String"),
    ]);
    let out = generate(&schema).unwrap();
    let header = out.find(HEADER).unwrap();
    let base = out.find(BASE_USE).unwrap();
    let string = out.find("pub type String = String;").unwrap();
    let client = out.find("pub struct Client {\n    pub container: Container,\n}").unwrap();
    let container = out.find("pub struct Container {\n    pub id: String,\n}").unwrap();
    assert!(header < string && base < string);
    assert!(string < client);
    assert!(client < container);
    assert!(!out.contains("Query"));
}

#[test]
fn enums_and_inputs_render_their_members() {
    let mut e = ty(TypeKind::Enum, "NetworkProtocol");
    e.enum_values = Some(vec!["TCP".to_string(), "UDP".to_string()]);
    let mut i = ty(TypeKind::InputObject, "QueryArg");
    i.input_fields = Some(vec![field("value", Some("QueryValue"))]);
    let out = generate(&schema_of(vec![i, e])).unwrap();
    let en = out.find("pub enum NetworkProtocol {\n    TCP,\n    UDP,\n}").unwrap();
    let inp = out.find("pub struct ClientArg {\n    pub value: ClientValue,\n}").unwrap();
    assert!(en < inp);
}

#[test]
fn missing_types_collection_is_an_error() {
    let schema = Schema { types: None };
    assert!(matches!(generate(&schema), Err(CodegenError::MissingTypes)));
}

#[test]
fn missing_schema_is_an_error() {
    let response = IntrospectionResponse { schema: None };
    assert!(matches!(CodeGeneration::new().generate(&response), Err(CodegenError::MissingSchema)));
    let response = IntrospectionResponse { schema: Some(schema_of(vec![])) };
    assert!(CodeGeneration::new().generate(&response).unwrap().contains(HEADER));
}

#[test]
fn absent_entries_are_dropped() {
    let schema = Schema {
        types: Some(vec![None, Some(ty(TypeKind::Scalar, "A")), None, Some(ty(TypeKind::Enum, "B"))]),
    };
    let types = get_types(&schema).unwrap();
    let names: Vec<_> = types.iter().map(|t| t.name.clone().unwrap()).collect();
    assert_eq!(names, vec!["A".to_string(), "B".to_string()]);
    assert!(matches!(get_types(&Schema { types: None }), Err(CodegenError::MissingTypes)));
}

#[test]
fn groups_follow_classifier_priority() {
    let a = object("A", vec![]);
    let b = ty(TypeKind::Scalar, "B");
    let c = ty(TypeKind::InputObject, "C");
    let d = ty(TypeKind::Scalar, "D");
    let types = vec![&a, &b, &c, &d];
    let groups = CodeGeneration::new().group_by_handlers(&types);
    let names: Vec<(Handler, Vec<String>)> = groups
        .iter()
        .map(|(h, g)| (*h, g.iter().map(|t| t.name.clone().unwrap()).collect()))
        .collect();
    assert_eq!(
        names,
        vec![
            (Handler::Scalar, vec!["B".to_string(), "D".to_string()]),
            (Handler::Enumeration, vec![]),
            (Handler::Input, vec!["C".to_string()]),
            (Handler::Object, vec!["A".to_string()]),
        ]
    );
}

#[test]
fn render_reports_the_first_untyped_field() {
    let t = object("Box", vec![field("a", None), field("b", None)]);
    match Handler::Object.render(&t, "Box") {
        Err(e) => {
            assert_eq!(e.type_label, "Box");
            assert_eq!(e.field, "a");
        }
        Ok(s) => panic!("expected failure, got {}", s),
    }
    assert_eq!(Handler::Scalar.render(&t, "Box").unwrap(), "pub type Box = String;");
    assert_eq!(Handler::Input.render(&t, "Box").unwrap(), "pub struct Box {\n}");
}

#[test]
fn unclassified_types_are_counted() {
    let a = ty(TypeKind::Interface, "Node");
    let b = ty(TypeKind::Scalar, "B");
    let c = ty(TypeKind::Union, "U");
    let mut d = ty(TypeKind::Object, "D");
    d.kind = None;
    let types = vec![&a, &b, &c, &d];
    assert_eq!(CodeGeneration::new().count_unclassified(&types), 3);
    assert_eq!(CodeGeneration::new().count_unclassified(&vec![]), 0);
}

#[test]
fn inserting_a_meta_type_changes_nothing() {
    let without = schema_of(vec![
        ty(TypeKind::Scalar, "String"),
        object("Container", vec![field("id", Some("String"))]),
    ]);
    let with = schema_of(vec![
        ty(TypeKind::Scalar, "String"),
        object("__Directive", vec![field("broken", None)]),
        object("Container", vec![field("id", Some("String"))]),
    ]);
    assert_eq!(generate(&with).unwrap(), generate(&without).unwrap());
}

#[test]
fn nameless_and_unclassified_types_change_nothing() {
    let base = vec![ty(TypeKind::Scalar, "String"), object("Container", vec![field("id", Some("String"))])];
    let mut nameless = object("Unnamed", vec![field("broken", None)]);
    nameless.name = None;
    let mut with = base.clone();
    with.insert(1, nameless);
    with.insert(0, ty(TypeKind::Union, "Either"));
    let mut sparse: Vec<Option<FullType>> = with.into_iter().map(Some).collect();
    sparse.insert(2, None);
    let with = Schema { types: Some(sparse) };
    assert_eq!(generate(&with).unwrap(), generate(&schema_of(base)).unwrap());
}
