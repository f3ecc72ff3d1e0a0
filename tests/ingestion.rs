use yasc::collection::Collection;
use yasc::ingest::{IngestError, Step};
use yasc::schema::{InstanceType, ObjectValidation, Schema, SchemaObject};

fn typed(t: InstanceType) -> SchemaObject {
    let mut s = SchemaObject::new();
    s.instance_type = Some(vec![t]);
    s
}

fn reference(r: &str) -> SchemaObject {
    let mut s = SchemaObject::new();
    s.reference = Some(String::from(r));
    s
}

fn holder(field: &str, target: &str) -> SchemaObject {
    let mut s = typed(InstanceType::Object);
    s.object = Some(ObjectValidation {
        required: Vec::new(),
        properties: vec![(String::from(field), Schema::Object(reference(target)))],
        additional_properties: None,
        pattern_properties: Vec::new(),
    });
    s
}

fn first_reference(s: &SchemaObject) -> String {
    match &s.object.as_ref().unwrap().properties[0].1 {
        Schema::Object(o) => o.reference.clone().unwrap(),
        Schema::Bool(_) => panic!("expected an object schema"),
    }
}

#[test]
fn ingesting_twice_changes_nothing() {
    let mut c = Collection::new();
    let (_ing, step) = c.add_schema_with_id("https://example.com/a.json", typed(InstanceType::String));
    assert_eq!(step, Ok(Step::Done));
    assert_eq!(c.len(), 1);
    let (_ing, step) = c.add_schema_with_id("https://example.com/a.json", typed(InstanceType::Number));
    assert_eq!(step, Ok(Step::Done));
    assert_eq!(c.len(), 1);
    let stored = c.get("https://example.com/a.json").unwrap();
    assert_eq!(stored.instance_type, Some(vec![InstanceType::String]));
}

#[test]
fn declared_id_already_stored_short_circuits() {
    let mut c = Collection::new();
    let (_ing, step) = c.add_schema_with_id("https://example.com/a.json", typed(InstanceType::String));
    assert_eq!(step, Ok(Step::Done));
    let mut other = typed(InstanceType::Number);
    other.id = Some(String::from("https://example.com/a.json"));
    let (_ing, step) = c.add_schema_with_id("https://example.com/b.json", other);
    assert_eq!(step, Ok(Step::Done));
    assert_eq!(c.len(), 1);
    assert!(!c.contains("https://example.com/b.json"));
}

#[test]
fn declared_id_chooses_storage_key() {
    let mut c = Collection::new();
    let mut s = typed(InstanceType::String);
    s.id = Some(String::from("https://example.com/declared.json"));
    let (_ing, step) = c.add_schema_with_id("https://example.com/given.json", s);
    assert_eq!(step, Ok(Step::Done));
    assert!(c.contains("https://example.com/declared.json"));
    assert!(!c.contains("https://example.com/given.json"));
}

#[test]
fn relative_reference_is_fetched_and_rewritten() {
    let mut c = Collection::new();
    let root = "https://example.com/schemas/root.json";
    let (mut ing, step) = c.add_schema_with_id(root, holder("other", "other.json"));
    assert_eq!(step, Ok(Step::Fetch(String::from("https://example.com/schemas/other.json"))));
    assert!(c.is_empty());
    let step = ing.resume(&mut c, Some(typed(InstanceType::Boolean)));
    assert_eq!(step, Ok(Step::Done));
    assert_eq!(c.len(), 2);
    let stored = c.get(root).unwrap();
    let r = first_reference(stored);
    assert_eq!(r, "https://example.com/schemas/other.json");
    assert!(c.contains(&r));
}

#[test]
fn reference_resolves_against_declared_id() {
    let mut c = Collection::new();
    let mut s = holder("x", "x.json");
    s.id = Some(String::from("https://other.org/base/self.json"));
    let (_ing, step) = c.add_schema_with_id("https://example.com/given.json", s);
    assert_eq!(step, Ok(Step::Fetch(String::from("https://other.org/base/x.json"))));
}

#[test]
fn absolute_reference_already_stored_needs_no_fetch() {
    let mut c = Collection::new();
    let (_ing, step) = c.add_schema_with_id("https://example.com/b.json", typed(InstanceType::Null));
    assert_eq!(step, Ok(Step::Done));
    let (_ing, step) = c.add_schema_with_id("https://example.com/a.json", holder("b", "https://example.com/b.json"));
    assert_eq!(step, Ok(Step::Done));
    assert_eq!(c.len(), 2);
}

#[test]
fn cycles_end_without_refetching() {
    let mut c = Collection::new();
    let a = "https://example.com/a.json";
    let (mut ing, step) = c.add_schema_with_id(a, holder("b", "b.json"));
    assert_eq!(step, Ok(Step::Fetch(String::from("https://example.com/b.json"))));
    let step = ing.resume(&mut c, Some(holder("a", "a.json")));
    assert_eq!(step, Ok(Step::Done));
    assert_eq!(c.len(), 2);
    let b = c.get("https://example.com/b.json").unwrap();
    assert_eq!(first_reference(b), a);
    let stored_a = c.get(a).unwrap();
    assert_eq!(first_reference(stored_a), "https://example.com/b.json");
}

#[test]
fn every_remaining_reference_is_stored() {
    let mut c = Collection::new();
    let root = "https://example.com/r.json";
    let mut s = holder("p", "p.json");
    s.object.as_mut().unwrap().properties.push((String::from("q"), Schema::Object(reference("q.json"))));
    let (mut ing, mut step) = c.add_schema_with_id(root, s);
    let mut fetched = Vec::new();
    while let Ok(Step::Fetch(t)) = &step {
        fetched.push(t.clone());
        step = ing.resume(&mut c, Some(holder("back", "r.json")));
    }
    assert_eq!(step, Ok(Step::Done));
    assert_eq!(fetched, vec![String::from("https://example.com/p.json"), String::from("https://example.com/q.json")]);
    for id in [root, "https://example.com/p.json", "https://example.com/q.json"] {
        let stored = c.get(id).unwrap();
        for (_, prop) in &stored.object.as_ref().unwrap().properties {
            if let Schema::Object(o) = prop {
                assert!(c.contains(o.reference.as_deref().unwrap()));
            }
        }
    }
}

#[test]
fn unresolvable_reference_is_an_error() {
    let mut c = Collection::new();
    let (_ing, step) = c.add_schema_with_id("urn:example:root", holder("x", "relative"));
    assert_eq!(
        step,
        Err(IngestError::Resolution {
            reference: String::from("relative"),
            root: String::from("urn:example:root"),
        })
    );
    assert!(c.is_empty());
}

#[test]
fn failed_fetch_is_an_error() {
    let mut c = Collection::new();
    let root = "https://example.com/a.json";
    let (mut ing, step) = c.add_schema_with_id(root, holder("b", "b.json"));
    assert_eq!(step, Ok(Step::Fetch(String::from("https://example.com/b.json"))));
    let step = ing.resume(&mut c, None);
    assert_eq!(
        step,
        Err(IngestError::Fetch {
            target: String::from("https://example.com/b.json"),
            root: String::from(root),
        })
    );
    assert!(c.is_empty());
}

#[test]
fn absolute_reference_is_normalized() {
    let mut c = Collection::new();
    let (_ing, step) = c.add_schema_with_id(
        "https://example.com/a.json",
        holder("b", "HTTPS://Example.COM/x/../b.json"),
    );
    assert_eq!(step, Ok(Step::Fetch(String::from("https://example.com/b.json"))));
}

#[test]
fn root_declaring_its_own_id_is_stored_there_with_references_resolved() {
    let mut c = Collection::new();
    let mut s = holder("x", "x.json");
    s.id = Some(String::from("https://other.org/base/self.json"));
    let (mut ing, step) = c.add_schema_with_id("https://example.com/given.json", s);
    assert_eq!(step, Ok(Step::Fetch(String::from("https://other.org/base/x.json"))));
    let step = ing.resume(&mut c, Some(holder("back", "self.json")));
    assert_eq!(step, Ok(Step::Done));
    let stored = c.get("https://other.org/base/self.json").unwrap();
    assert_eq!(first_reference(stored), "https://other.org/base/x.json");
    let x = c.get("https://other.org/base/x.json").unwrap();
    assert_eq!(first_reference(x), "https://other.org/base/self.json");
    assert!(!c.contains("https://example.com/given.json"));
    let (_ing, step) = c.add_schema_with_id("https://example.com/given.json", {
        let mut again = holder("x", "x.json");
        again.id = Some(String::from("https://other.org/base/self.json"));
        again
    });
    assert_eq!(step, Ok(Step::Done));
    assert_eq!(c.len(), 2);
}

#[test]
fn no_locator_is_requested_twice() {
    let mut c = Collection::new();
    let (mut ing, mut step) = c.add_schema_with_id("https://example.com/a.json", holder("b", "b.json"));
    let mut fetched = Vec::new();
    while let Ok(Step::Fetch(t)) = &step {
        assert!(!fetched.contains(t));
        fetched.push(t.clone());
        let next = if t.ends_with("b.json") { holder("c", "c.json") } else { holder("a", "a.json") };
        step = ing.resume(&mut c, Some(next));
    }
    assert_eq!(step, Ok(Step::Done));
    assert_eq!(fetched.len(), 2);
    assert_eq!(c.len(), 3);
}

#[test]
fn resolution_error_in_fetched_schema_names_its_locator() {
    let mut c = Collection::new();
    let (mut ing, step) = c.add_schema_with_id("https://example.com/a.json", holder("b", "urn:x:b"));
    assert_eq!(step, Ok(Step::Fetch(String::from("urn:x:b"))));
    let step = ing.resume(&mut c, Some(holder("y", "relative")));
    assert_eq!(
        step,
        Err(IngestError::Resolution { reference: String::from("relative"), root: String::from("urn:x:b") })
    );
}
