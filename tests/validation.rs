use dmntk_core::errors::DmnError;
use dmntk_core::validator::{validate, Definitions, ItemDefinition};

fn def(name: &str, type_ref: Option<&str>, parent: Option<usize>) -> ItemDefinition {
    ItemDefinition { name: name.to_string(), type_ref: type_ref.map(|t| t.to_string()), parent }
}

fn is_cycle_error(r: &Result<Definitions, DmnError>) -> bool {
    matches!(r, Err(DmnError::ItemDefinitionsCycle))
}

#[test]
fn mutual_type_references_form_a_cycle() {
    let d = Definitions { item_definitions: vec![def("A", Some("B"), None), def("B", Some("A"), None)] };
    assert!(is_cycle_error(&validate(d)));
}

#[test]
fn self_reference_is_a_cycle() {
    let d = Definitions { item_definitions: vec![def("A", Some("A"), None)] };
    assert!(is_cycle_error(&validate(d)));
}

#[test]
fn chain_of_type_references_is_accepted() {
    let d = Definitions {
        item_definitions: vec![def("A", Some("B"), None), def("B", Some("C"), None), def("C", Some("string"), None)],
    };
    let r = validate(d);
    assert!(r.is_ok());
    assert_eq!(r.ok().map(|d| d.item_definitions.len()), Some(3));
}

#[test]
fn long_chain_back_to_start_is_a_cycle() {
    let d = Definitions {
        item_definitions: vec![def("A", Some("B"), None), def("B", Some("C"), None), def("C", Some("A"), None)],
    };
    assert!(is_cycle_error(&validate(d)));
}

#[test]
fn component_referring_to_its_parent_is_a_cycle() {
    let d = Definitions { item_definitions: vec![def("Person", None, None), def("friend", Some("Person"), Some(0))] };
    assert!(is_cycle_error(&validate(d)));
}

#[test]
fn components_with_primitive_types_are_accepted() {
    let d = Definitions {
        item_definitions: vec![
            def("Person", None, None),
            def("name", Some("string"), Some(0)),
            def("address", Some("Address"), Some(0)),
            def("Address", None, None),
            def("street", Some("string"), Some(3)),
        ],
    };
    assert!(validate(d).is_ok());
}

#[test]
fn reference_to_a_qualified_component_name_is_followed() {
    let d = Definitions {
        item_definitions: vec![def("A", None, None), def("x", Some("B"), Some(0)), def("B", Some("A.x"), None)],
    };
    assert!(is_cycle_error(&validate(d)));
}

#[test]
fn empty_definitions_are_accepted() {
    assert!(validate(Definitions { item_definitions: vec![] }).is_ok());
}

use dmntk_core::types::{resolve_type_ref, ItemType, PrimitiveType};

fn person_definitions() -> Definitions {
    Definitions {
        item_definitions: vec![
            def("Person", None, None),
            def("name", Some("string"), Some(0)),
            def("Name", Some("string"), None),
            def("Customer", Some("Person"), None),
            def("Age", Some("number"), None),
            def("Years", Some("Age"), None),
        ],
    }
}

#[test]
fn primitive_type_ref_resolves_directly() {
    let r = resolve_type_ref(&person_definitions(), &"date and time".to_string());
    assert!(matches!(r, Ok(ItemType::Primitive(PrimitiveType::DateTime))));
}

#[test]
fn structural_type_resolves_to_its_definition() {
    let r = resolve_type_ref(&person_definitions(), &"Person".to_string());
    assert!(matches!(r, Ok(ItemType::Structure(0))));
}

#[test]
fn type_refs_are_followed_to_the_end() {
    let d = person_definitions();
    assert!(matches!(resolve_type_ref(&d, &"Customer".to_string()), Ok(ItemType::Structure(0))));
    assert!(matches!(resolve_type_ref(&d, &"Years".to_string()), Ok(ItemType::Primitive(PrimitiveType::Number))));
}

#[test]
fn unknown_type_ref_is_an_error() {
    match resolve_type_ref(&person_definitions(), &"Planet".to_string()) {
        Err(DmnError::UnknownTypeReference(n)) => assert_eq!(n, "Planet"),
        _ => panic!("expected an unknown type reference"),
    }
}

#[test]
fn cycle_error_reads_well() {
    assert_eq!(DmnError::ItemDefinitionsCycle.to_string(), "item definitions form a cycle");
    assert_eq!(DmnError::NoSuchInvocable("X".to_string()).to_string(), "no such invocable: X");
}
