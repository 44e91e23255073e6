//! The entity data model: record-type definitions (`SObject`) carrying typed,
//! constrained references (`LookupField`) to other entities by name. Only a
//! `Lookup` reference under a `Restrict` delete constraint forces a deletion
//! ordering; the resolver turns exactly those into graph edges.

use vstd::prelude::*;
use vstd::string::StrSliceExecFns;

verus! {

/// How one entity refers to another.
#[derive(Clone, Copy, Debug, PartialEq, Eq, Structural)]
pub enum LookupType {
    Lookup,
    MasterDetail,
}

/// What the store does to a reference when its target is deleted.
#[derive(Clone, Copy, Debug, PartialEq, Eq, Structural)]
pub enum DeleteConstraint {
    SetNull,
    Restrict,
    Cascade,
}

/// One typed, constrained reference to another entity, by name.
#[derive(Debug, PartialEq, Eq)]
pub struct LookupField {
    pub full_name: String,
    pub target_sobject: String,
    pub lookup_type: LookupType,
    pub delete_constraint: DeleteConstraint,
}

/// The mathematical value of a `LookupField`.
pub struct LookupFieldView {
    pub full_name: Seq<char>,
    pub target_sobject: Seq<char>,
    pub lookup_type: LookupType,
    pub delete_constraint: DeleteConstraint,
}

impl View for LookupField {
    type V = LookupFieldView;

    open spec fn view(&self) -> LookupFieldView {
        LookupFieldView {
            full_name: self.full_name@,
            target_sobject: self.target_sobject@,
            lookup_type: self.lookup_type,
            delete_constraint: self.delete_constraint,
        }
    }
}

/// One record-type definition: a name and its outgoing references.
#[derive(Debug, PartialEq, Eq)]
pub struct SObject {
    pub name: String,
    pub lookup_fields: Vec<LookupField>,
}

/// The mathematical value of an `SObject`.
pub struct SObjectView {
    pub name: Seq<char>,
    pub lookup_fields: Seq<LookupFieldView>,
}

impl View for SObject {
    type V = SObjectView;

    open spec fn view(&self) -> SObjectView {
        SObjectView {
            name: self.name@,
            lookup_fields: self.lookup_fields@.map_values(|f: LookupField| f@),
        }
    }
}

/// The values of a whole entity collection.
pub open spec fn views_of(sobjects: Seq<SObject>) -> Seq<SObjectView> {
    sobjects.map_values(|o: SObject| o@)
}

/// The ordering rule: only a `Lookup` reference under `Restrict` makes the
/// store refuse to delete the target first, so only it constrains the order.
pub open spec fn constrains_delete(f: LookupFieldView) -> bool {
    f.lookup_type == LookupType::Lookup && f.delete_constraint == DeleteConstraint::Restrict
}

impl SObject {
    /// The entity's name.
    pub fn name(&self) -> (r: &str)
        ensures
            r@ == self@.name,
    {
        self.name.as_str()
    }
}

/// Durable record types are every name but those of event types, which end
/// in `__e`.
pub open spec fn spec_is_sobject(name: Seq<char>) -> bool {
    !(name.len() >= 3 && name[name.len() - 3] == '_' && name[name.len() - 2] == '_'
        && name[name.len() - 1] == 'e')
}

/// Does `object_name` name a durable record type?
pub fn is_sobject(object_name: &str) -> (r: bool)
    ensures
        r == spec_is_sobject(object_name@),
{
    let len = object_name.unicode_len();
    if len < 3 {
        true
    } else {
        let c1 = object_name.get_char(len - 3);
        let c2 = object_name.get_char(len - 2);
        let c3 = object_name.get_char(len - 1);
        !(c1 == '_' && c2 == '_' && c3 == 'e')
    }
}

/// A deep copy of a reference, equal to it in value.
pub fn clone_field(field: &LookupField) -> (r: LookupField)
    ensures
        r@ == field@,
{
    LookupField {
        full_name: field.full_name.clone(),
        target_sobject: field.target_sobject.clone(),
        lookup_type: field.lookup_type,
        delete_constraint: field.delete_constraint,
    }
}

/// A deep copy of an entity, equal to it in value.
pub fn clone_sobject(sobject: &SObject) -> (r: SObject)
    ensures
        r@ == sobject@,
{
    let mut lookup_fields: Vec<LookupField> = Vec::new();
    let mut i: usize = 0;
    while i < sobject.lookup_fields.len()
        invariant
            i <= sobject.lookup_fields@.len(),
            lookup_fields@.len() == i,
            forall|k: int|
                0 <= k < i ==> (#[trigger] lookup_fields@[k])@ == sobject.lookup_fields@[k]@,
        decreases sobject.lookup_fields@.len() - i,
    {
        lookup_fields.push(clone_field(&sobject.lookup_fields[i]));
        i += 1;
    }
    let r = SObject { name: sobject.name.clone(), lookup_fields };
    proof {
        assert(r@.lookup_fields =~= sobject@.lookup_fields);
    }
    r
}

} // verus!
