use salesforce::{DeleteConstraint, LookupField, LookupType, OrderError, SObject};
use salesforce::{delete_order, is_sobject};

fn field(full_name: &str, target: &str, lookup_type: LookupType, delete_constraint: DeleteConstraint) -> LookupField {
    LookupField {
        full_name: full_name.to_string(),
        target_sobject: target.to_string(),
        lookup_type,
        delete_constraint,
    }
}

fn entity(name: &str, lookup_fields: Vec<LookupField>) -> SObject {
    SObject { name: name.to_string(), lookup_fields }
}

#[test]
fn test_sobject_detection() {
    assert_eq!(true, is_sobject("Account"));
    assert_eq!(true, is_sobject("Custom_Object__c"));
    assert_eq!(false, is_sobject("Custom_Event__e"));
}

#[test]
fn test_delete_sort() {
    let sobjects = vec![
        entity(
            "Account",
            vec![
                field("SetNull_Contact__c", "Contact", LookupType::Lookup, DeleteConstraint::SetNull),
                field("Restrict_Contact__c", "Contact", LookupType::Lookup, DeleteConstraint::Restrict),
                field("Cascade_Contact__c", "Contact", LookupType::Lookup, DeleteConstraint::Cascade),
            ],
        ),
        entity("Contact", vec![]),
    ];

    let sorted_sobjects = delete_order(&sobjects).unwrap();

    assert_eq!(2, sorted_sobjects.len());
    assert_eq!("Account", sorted_sobjects[0].name());
    assert_eq!("Contact", sorted_sobjects[1].name());
}

#[test]
fn delete_order_empty_input() {
    let sobjects: Vec<SObject> = vec![];
    let sorted = delete_order(&sobjects).unwrap();
    assert_eq!(0, sorted.len());
}

#[test]
fn delete_order_restrict_chain() {
    let sobjects = vec![
        entity("A", vec![field("B__c", "B", LookupType::Lookup, DeleteConstraint::Restrict)]),
        entity("B", vec![field("C__c", "C", LookupType::Lookup, DeleteConstraint::Restrict)]),
        entity("C", vec![]),
    ];
    let sorted = delete_order(&sobjects).unwrap();
    let names: Vec<&str> = sorted.iter().map(|o| o.name()).collect();
    assert_eq!(vec!["A", "B", "C"], names);
}

#[test]
fn delete_order_set_null_adds_no_edge() {
    let sobjects = vec![
        entity("A", vec![field("B__c", "B", LookupType::Lookup, DeleteConstraint::SetNull)]),
        entity("B", vec![field("A__c", "A", LookupType::Lookup, DeleteConstraint::Restrict)]),
    ];
    let sorted = delete_order(&sobjects).unwrap();
    let names: Vec<&str> = sorted.iter().map(|o| o.name()).collect();
    assert_eq!(vec!["B", "A"], names);
}

#[test]
fn delete_order_mutual_restrict_is_a_cycle() {
    let sobjects = vec![
        entity("A", vec![field("B__c", "B", LookupType::Lookup, DeleteConstraint::Restrict)]),
        entity("B", vec![field("A__c", "A", LookupType::Lookup, DeleteConstraint::Restrict)]),
    ];
    assert_eq!(Err(OrderError::CycleDetected), delete_order(&sobjects));
}

#[test]
fn delete_order_unknown_target() {
    let sobjects = vec![
        entity("A", vec![field("B__c", "Missing", LookupType::Lookup, DeleteConstraint::Restrict)]),
        entity("B", vec![]),
    ];
    assert_eq!(Err(OrderError::UnknownTarget), delete_order(&sobjects));
}

#[test]
fn delete_order_unknown_target_ignored_when_not_constraining() {
    // an unresolved name behind SetNull or Cascade never reaches the map
    let sobjects = vec![
        entity("A", vec![field("B__c", "Missing", LookupType::Lookup, DeleteConstraint::Cascade)]),
        entity("B", vec![]),
    ];
    assert!(delete_order(&sobjects).is_ok());
}

#[test]
fn delete_order_master_detail_adds_no_edge() {
    // only Lookup references under Restrict constrain the order
    let sobjects = vec![
        entity("A", vec![field("B__c", "B", LookupType::MasterDetail, DeleteConstraint::Restrict)]),
        entity("B", vec![field("A__c", "A", LookupType::Lookup, DeleteConstraint::Restrict)]),
    ];
    let sorted = delete_order(&sobjects).unwrap();
    let names: Vec<&str> = sorted.iter().map(|o| o.name()).collect();
    assert_eq!(vec!["B", "A"], names);
}

#[test]
fn delete_order_is_idempotent() {
    let sobjects = vec![
        entity("A", vec![field("B__c", "B", LookupType::Lookup, DeleteConstraint::Restrict)]),
        entity("B", vec![]),
        entity("C", vec![field("A__c", "A", LookupType::Lookup, DeleteConstraint::Restrict)]),
    ];
    let first = delete_order(&sobjects).unwrap();
    let second = delete_order(&sobjects).unwrap();
    assert_eq!(first, second);
}

#[test]
fn delete_order_duplicate_names_last_wins() {
    // the later of two entities sharing a name shadows the earlier one
    let sobjects = vec![
        entity("X", vec![]),
        entity("X", vec![]),
        entity("A", vec![field("X__c", "X", LookupType::Lookup, DeleteConstraint::Restrict)]),
    ];
    let sorted = delete_order(&sobjects).unwrap();
    let names: Vec<&str> = sorted.iter().map(|o| o.name()).collect();
    // the edge goes to the second X, so A precedes it but not the first X
    assert_eq!(vec!["X", "A", "X"], names);
}

#[test]
fn is_sobject_short_and_boundary_names() {
    assert_eq!(true, is_sobject(""));
    assert_eq!(true, is_sobject("e"));
    assert_eq!(true, is_sobject("_e"));
    assert_eq!(false, is_sobject("__e"));
    assert_eq!(false, is_sobject("a__e"));
    assert_eq!(true, is_sobject("a__E"));
}

#[test]
fn sobject_name_accessor() {
    let account = entity("Account", vec![]);
    assert_eq!("Account", account.name());
}
