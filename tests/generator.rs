use yasc::codegen::typescript::{GenerateError, TypeScriptGenerator, TypeScriptGeneratorOptions};
use yasc::collection::Collection;
use yasc::schema::{
    ArrayItems, InstanceType, ObjectValidation, Schema, SchemaObject, SubschemaValidation,
};
use yasc::util::StringWriter;

fn typed(t: InstanceType) -> SchemaObject {
    let mut s = SchemaObject::new();
    s.instance_type = Some(vec![t]);
    s
}

fn reference(r: &str) -> SchemaObject {
    let mut s = SchemaObject::new();
    s.reference = Some(String::from(r));
    s
}

fn object_with(props: Vec<(&str, Schema)>, required: Vec<&str>) -> SchemaObject {
    let mut s = typed(InstanceType::Object);
    s.object = Some(ObjectValidation {
        required: required.into_iter().map(String::from).collect(),
        properties: props.into_iter().map(|(k, v)| (String::from(k), v)).collect(),
        additional_properties: None,
        pattern_properties: Vec::new(),
    });
    s
}

fn render(gen: &TypeScriptGenerator, s: &SchemaObject) -> Result<String, GenerateError> {
    let mut w = StringWriter::new();
    gen.generate_type(s, &mut w)?;
    Ok(w.finish())
}

fn collection_with(defs: Vec<(&str, SchemaObject)>) -> Collection {
    let mut c = Collection::new();
    c.add_from_generator(defs.into_iter().map(|(n, s)| (String::from(n), s)).collect());
    c
}

fn definition(gen: &TypeScriptGenerator, id: &str) -> Result<String, GenerateError> {
    let mut w = StringWriter::new();
    gen.generate_definition(id, None, &mut w)?;
    Ok(w.finish())
}

#[test]
fn required_and_optional_properties() {
    let thing = object_with(
        vec![
            ("a", Schema::Object(typed(InstanceType::String))),
            ("b", Schema::Object(typed(InstanceType::Number))),
        ],
        vec!["a"],
    );
    let c = collection_with(vec![("Thing", thing)]);
    let gen = TypeScriptGenerator::new(&c);
    let text = definition(&gen, "root://Thing").unwrap();
    assert_eq!(text, "export interface Thing {\na: string;\nb?: number;\n}");
    let a = text.find("a: string;").unwrap();
    let b = text.find("b?: number;").unwrap();
    assert!(a < b);
}

#[test]
fn union_of_one_of_branches() {
    let mut s = SchemaObject::new();
    s.subschemas = Some(SubschemaValidation {
        all_of: None,
        any_of: None,
        one_of: Some(vec![
            Schema::Object(typed(InstanceType::String)),
            Schema::Object(typed(InstanceType::Number)),
        ]),
    });
    assert_eq!(render(&TypeScriptGenerator::new(&Collection::new()), &s).unwrap(), "(string | number)");
}

#[test]
fn one_of_and_any_of_share_one_union() {
    let mut s = SchemaObject::new();
    s.subschemas = Some(SubschemaValidation {
        all_of: None,
        any_of: Some(vec![Schema::Bool(true)]),
        one_of: Some(vec![Schema::Object(typed(InstanceType::Null)), Schema::Bool(false)]),
    });
    assert_eq!(render(&TypeScriptGenerator::new(&Collection::new()), &s).unwrap(), "(null | never | unknown)");
}

#[test]
fn intersection_has_no_parenthesis() {
    let inner = object_with(vec![("a", Schema::Object(typed(InstanceType::String)))], vec!["a"]);
    let mut s = SchemaObject::new();
    s.subschemas = Some(SubschemaValidation {
        all_of: Some(vec![Schema::Object(inner)]),
        any_of: None,
        one_of: None,
    });
    let text = render(&TypeScriptGenerator::new(&Collection::new()), &s).unwrap();
    assert_eq!(text, "{\na: string;\n}");
    assert!(!text.starts_with('('));
}

#[test]
fn union_and_intersection_joined() {
    let mut s = SchemaObject::new();
    s.subschemas = Some(SubschemaValidation {
        all_of: Some(vec![
            Schema::Object(typed(InstanceType::Boolean)),
            Schema::Object(typed(InstanceType::Null)),
        ]),
        any_of: None,
        one_of: Some(vec![Schema::Object(typed(InstanceType::String))]),
    });
    assert_eq!(render(&TypeScriptGenerator::new(&Collection::new()), &s).unwrap(), "(string) & boolean & null");
}

#[test]
fn composition_refined_by_instance_type() {
    let mut s = typed(InstanceType::String);
    s.subschemas = Some(SubschemaValidation {
        all_of: None,
        any_of: None,
        one_of: Some(vec![Schema::Object(typed(InstanceType::Number))]),
    });
    assert_eq!(render(&TypeScriptGenerator::new(&Collection::new()), &s).unwrap(), "(number) & string");
}

#[test]
fn tuple_items_keep_trailing_comma() {
    let mut s = typed(InstanceType::Array);
    s.array = Some(Some(ArrayItems::Tuple(vec![
        Schema::Object(typed(InstanceType::String)),
        Schema::Object(typed(InstanceType::Number)),
    ])));
    assert_eq!(render(&TypeScriptGenerator::new(&Collection::new()), &s).unwrap(), "[string,number,]");
}

#[test]
fn array_forms() {
    let c = Collection::new();
    let gen = TypeScriptGenerator::new(&c);
    let plain = typed(InstanceType::Array);
    assert_eq!(render(&gen, &plain).unwrap(), "Array<unknown>");
    let mut single = typed(InstanceType::Array);
    single.array = Some(Some(ArrayItems::Single(Box::new(Schema::Object(typed(InstanceType::Integer))))));
    assert_eq!(render(&gen, &single).unwrap(), "Array<number>");
    let mut never = typed(InstanceType::Array);
    never.array = Some(Some(ArrayItems::Single(Box::new(Schema::Bool(false)))));
    assert_eq!(render(&gen, &never).unwrap(), "Array<never>");
}

#[test]
fn enum_literals_joined() {
    let mut s = SchemaObject::new();
    s.enum_values = Some(vec![String::from("1"), String::from("2"), String::from("3")]);
    assert_eq!(render(&TypeScriptGenerator::new(&Collection::new()), &s).unwrap(), "1 | 2 | 3");
}

#[test]
fn empty_enum_renders_nothing() {
    let mut s = SchemaObject::new();
    s.enum_values = Some(Vec::new());
    assert_eq!(render(&TypeScriptGenerator::new(&Collection::new()), &s).unwrap(), "");
}

#[test]
fn const_literal_verbatim() {
    let mut s = typed(InstanceType::String);
    s.const_value = Some(String::from("\"fixed\""));
    assert_eq!(render(&TypeScriptGenerator::new(&Collection::new()), &s).unwrap(), "\"fixed\"");
}

#[test]
fn several_instance_types() {
    let mut s = SchemaObject::new();
    s.instance_type = Some(vec![InstanceType::String, InstanceType::Null]);
    assert_eq!(render(&TypeScriptGenerator::new(&Collection::new()), &s).unwrap(), "string | null");
}

#[test]
fn untyped_schema_is_open_object() {
    assert_eq!(
        render(&TypeScriptGenerator::new(&Collection::new()), &SchemaObject::new()).unwrap(),
        "{\n[key: string]: unknown;}"
    );
}

#[test]
fn index_signature_merges_additional_and_pattern_properties() {
    let mut s = typed(InstanceType::Object);
    s.object = Some(ObjectValidation {
        required: Vec::new(),
        properties: Vec::new(),
        additional_properties: Some(Box::new(Schema::Object(typed(InstanceType::String)))),
        pattern_properties: vec![
            (String::from("^x"), Schema::Bool(true)),
            (String::from("^y"), Schema::Bool(false)),
            (String::from("^z"), Schema::Object(typed(InstanceType::Number))),
        ],
    });
    assert_eq!(
        render(&TypeScriptGenerator::new(&Collection::new()), &s).unwrap(),
        "{\n[key: string]: string | unknown | number;\n}"
    );
}

#[test]
fn boolean_property_schemas() {
    let s = object_with(
        vec![("any", Schema::Bool(true)), ("none", Schema::Bool(false))],
        vec!["any"],
    );
    assert_eq!(
        render(&TypeScriptGenerator::new(&Collection::new()), &s).unwrap(),
        "{\nany: unknown;none?: never;}"
    );
}

#[test]
fn property_docs_become_comments() {
    let mut a = typed(InstanceType::String);
    a.description = Some(String::from("  first line\nsecond line \n"));
    let s = object_with(vec![("a", Schema::Object(a))], vec!["a"]);
    assert_eq!(
        render(&TypeScriptGenerator::new(&Collection::new()), &s).unwrap(),
        "{\n/**\n * first line\n * second line\n */\na: string;\n}"
    );
}

#[test]
fn definition_docs_and_alias_form() {
    let mut s = typed(InstanceType::String);
    s.description = Some(String::from("An identifier."));
    let c = collection_with(vec![("Ident", s)]);
    let gen = TypeScriptGenerator::new(&c);
    assert_eq!(
        definition(&gen, "root://Ident").unwrap(),
        "/**\n * An identifier.\n */\nexport type Ident = string"
    );
}

#[test]
fn blank_docs_are_skipped() {
    let mut s = typed(InstanceType::Boolean);
    s.description = Some(String::from(" \n "));
    let c = collection_with(vec![("Flag", s)]);
    let gen = TypeScriptGenerator::new(&c);
    assert_eq!(definition(&gen, "root://Flag").unwrap(), "export type Flag = boolean");
}

#[test]
fn options_change_declaration_form() {
    let mut c = Collection::new();
    c.add_from_generator(vec![(String::from("Empty"), typed(InstanceType::Object))]);
    let gen = TypeScriptGenerator::new_with_options(
        &c,
        TypeScriptGeneratorOptions { export_definitions: false, use_interface: false },
    );
    assert_eq!(
        definition(&gen, "root://Empty").unwrap(),
        "type Empty = {\n[key: string]: unknown;}"
    );
}

#[test]
fn name_override_is_used() {
    let c = collection_with(vec![("Thing", typed(InstanceType::Number))]);
    let gen = TypeScriptGenerator::new(&c);
    let mut w = StringWriter::new();
    gen.generate_definition("root://Thing", Some(String::from("Renamed")), &mut w).unwrap();
    assert_eq!(w.finish(), "export type Renamed = number");
}

#[test]
fn local_references_render_as_names() {
    let user = object_with(vec![("name", Schema::Object(typed(InstanceType::String)))], vec!["name"]);
    let holder = object_with(
        vec![("owner", Schema::Object(reference("#/definitions/User")))],
        vec!["owner"],
    );
    let c = collection_with(vec![("Holder", holder), ("User", user)]);
    let gen = TypeScriptGenerator::new(&c);
    let stored = gen.collection().get("root://Holder").unwrap();
    let owner = &stored.object.as_ref().unwrap().properties[0].1;
    match owner {
        Schema::Object(o) => assert_eq!(o.reference.as_deref(), Some("root://User")),
        Schema::Bool(_) => panic!("expected an object schema"),
    }
    assert_eq!(
        definition(&gen, "root://Holder").unwrap(),
        "export interface Holder {\nowner: User;\n}"
    );
}

#[test]
fn reference_definition_emits_target_name() {
    let c = collection_with(vec![
        ("Alias", reference("#/definitions/Target")),
        ("Target", typed(InstanceType::String)),
    ]);
    let gen = TypeScriptGenerator::new(&c);
    assert_eq!(definition(&gen, "root://Alias").unwrap(), "export type Alias = Target");
}

#[test]
fn mutually_referencing_definitions() {
    let a = object_with(vec![("b", Schema::Object(reference("#/definitions/B")))], vec![]);
    let b = object_with(vec![("a", Schema::Object(reference("#/definitions/A")))], vec![]);
    let c = collection_with(vec![("A", a), ("B", b)]);
    let gen = TypeScriptGenerator::new(&c);
    assert_eq!(definition(&gen, "root://A").unwrap(), "export interface A {\nb?: B;\n}");
    assert_eq!(definition(&gen, "root://B").unwrap(), "export interface B {\na?: A;\n}");
}

#[test]
fn missing_definition_is_a_lookup_error() {
    let c = collection_with(vec![("Thing", typed(InstanceType::Number))]);
    let gen = TypeScriptGenerator::new(&c);
    let mut w = StringWriter::new();
    w.push_str("kept");
    let r = gen.generate_definition("root://Missing", None, &mut w);
    assert_eq!(r, Err(GenerateError::Lookup(String::from("root://Missing"))));
    assert_eq!(w.finish(), "kept");
}

#[test]
fn unnamed_definition_is_a_name_error() {
    let mut c = Collection::new();
    let (_ing, step) = c.add_schema_with_id("urn:example:thing", typed(InstanceType::Null));
    assert!(step.is_ok());
    let gen = TypeScriptGenerator::new(&c);
    let mut w = StringWriter::new();
    let r = gen.generate_definition("urn:example:thing", None, &mut w);
    assert_eq!(r, Err(GenerateError::TypeName(String::from("urn:example:thing"))));
}

#[test]
fn dangling_reference_fails_rendering() {
    let holder = object_with(vec![("x", Schema::Object(reference("#/definitions/Nope")))], vec![]);
    let c = collection_with(vec![("Holder", holder)]);
    let gen = TypeScriptGenerator::new(&c);
    let mut w = StringWriter::new();
    let r = gen.generate_definition("root://Holder", None, &mut w);
    assert_eq!(r, Err(GenerateError::MissingReference(String::from("root://Nope"))));
    assert!(w.is_empty());
}

#[test]
fn relative_reference_fails_rendering() {
    let c = Collection::new();
    let gen = TypeScriptGenerator::new(&c);
    let mut w = StringWriter::new();
    let r = gen.generate_name_or_type(&reference("other.json"), &mut w);
    assert_eq!(r, Err(GenerateError::NotAbsolute(String::from("other.json"))));
}

#[test]
fn rendering_twice_gives_same_text() {
    let thing = object_with(
        vec![
            ("a", Schema::Object(typed(InstanceType::String))),
            ("b", Schema::Object(typed(InstanceType::Number))),
        ],
        vec!["b"],
    );
    let c = collection_with(vec![("Thing", thing)]);
    let gen = TypeScriptGenerator::new(&c);
    let first = definition(&gen, "root://Thing").unwrap();
    let second = definition(&gen, "root://Thing").unwrap();
    assert_eq!(first, second);
}

#[test]
fn whole_document_in_definition_order() {
    let c = collection_with(vec![
        ("B", typed(InstanceType::String)),
        ("A", typed(InstanceType::Number)),
    ]);
    let gen = TypeScriptGenerator::new(&c);
    let mut w = StringWriter::new();
    gen.generate_definitions(&mut w).unwrap();
    assert_eq!(w.finish(), "export type B = string\nexport type A = number\n");
}

#[test]
fn definitions_keep_their_own_title() {
    let mut s = typed(InstanceType::String);
    s.title = Some(String::from("pretty name"));
    let c = collection_with(vec![("raw_name", s)]);
    let gen = TypeScriptGenerator::new(&c);
    assert_eq!(definition(&gen, "root://raw_name").unwrap(), "export type PrettyName = string");
    assert_eq!(gen.collection().len(), 1);
}

#[test]
fn empty_composition_adds_no_joiner() {
    let mut empty_enum = SchemaObject::new();
    empty_enum.enum_values = Some(Vec::new());
    let mut s = typed(InstanceType::String);
    s.subschemas = Some(SubschemaValidation {
        all_of: Some(vec![Schema::Object(empty_enum)]),
        any_of: None,
        one_of: None,
    });
    assert_eq!(render(&TypeScriptGenerator::new(&Collection::new()), &s).unwrap(), "string");
}

#[test]
fn empty_enum_is_not_a_plain_object() {
    let mut s = typed(InstanceType::Object);
    s.enum_values = Some(Vec::new());
    let c = collection_with(vec![("Nothing", s)]);
    let gen = TypeScriptGenerator::new(&c);
    assert_eq!(definition(&gen, "root://Nothing").unwrap(), "export type Nothing = ");
}

#[test]
fn duplicate_definition_names_keep_the_first() {
    let c = collection_with(vec![
        ("Same", typed(InstanceType::String)),
        ("Same", typed(InstanceType::Number)),
    ]);
    let gen = TypeScriptGenerator::new(&c);
    assert_eq!(gen.collection().len(), 1);
    assert_eq!(definition(&gen, "root://Same").unwrap(), "export type Same = string");
}

#[test]
fn reference_error_writes_nothing() {
    let c = Collection::new();
    let gen = TypeScriptGenerator::new(&c);
    let mut w = StringWriter::new();
    w.push_str("kept");
    assert!(gen.generate_name_or_type(&reference("root://Absent"), &mut w).is_err());
    assert_eq!(w.finish(), "kept");
}
