//! Resolution of type references to primitive or structural types.
use crate::errors::DmnError;
use crate::validator::{Definitions, ItemDefinition};
use vstd::prelude::*;
use vstd::string::StringExecFns;

verus! {

/// The primitive types of the expression language.
#[derive(PartialEq, Eq, Structural, Clone, Copy)]
pub enum PrimitiveType {
    Text,
    Number,
    Boolean,
    Date,
    Time,
    DateTime,
    DaysAndTimeDuration,
    YearsAndMonthsDuration,
}

/// A resolved type: primitive, or the structure made of the components of the item
/// definition at the given index.
#[derive(PartialEq, Eq, Structural, Clone, Copy)]
pub enum ItemType {
    Primitive(PrimitiveType),
    Structure(usize),
}

/// The primitive type of that name, if any.
pub open spec fn primitive_named(name: Seq<char>) -> Option<PrimitiveType> {
    if name == "string"@ {
        Some(PrimitiveType::Text)
    } else if name == "number"@ {
        Some(PrimitiveType::Number)
    } else if name == "boolean"@ {
        Some(PrimitiveType::Boolean)
    } else if name == "date"@ {
        Some(PrimitiveType::Date)
    } else if name == "time"@ {
        Some(PrimitiveType::Time)
    } else if name == "date and time"@ {
        Some(PrimitiveType::DateTime)
    } else if name == "days and time duration"@ {
        Some(PrimitiveType::DaysAndTimeDuration)
    } else if name == "years and months duration"@ {
        Some(PrimitiveType::YearsAndMonthsDuration)
    } else {
        None
    }
}

/// The first top-level definition named `name`, from index `i` on.
pub open spec fn top_level_from(defs: Seq<ItemDefinition>, name: Seq<char>, i: int) -> Option<int>
    decreases defs.len() - i,
{
    if i < 0 || i >= defs.len() {
        None
    } else if defs[i].parent is None && defs[i].name@ == name {
        Some(i)
    } else {
        top_level_from(defs, name, i + 1)
    }
}

/// Definition `i` has components.
pub open spec fn has_components(defs: Seq<ItemDefinition>, i: int) -> bool {
    exists|j: int| 0 <= j < defs.len() && (#[trigger] defs[j]).parent == Some(i as usize)
}

/// The type that `name` resolves to, following at most `fuel` type references between item
/// definitions: a primitive type; or a top-level definition with components; or, for one
/// without, the type its own type reference resolves to.
pub open spec fn resolve_type(defs: Seq<ItemDefinition>, name: Seq<char>, fuel: nat) -> Option<ItemType>
    decreases fuel,
{
    match primitive_named(name) {
        Some(p) => Some(ItemType::Primitive(p)),
        None => match top_level_from(defs, name, 0) {
            None => None,
            Some(i) => if has_components(defs, i) {
                Some(ItemType::Structure(i as usize))
            } else {
                match defs[i].type_ref {
                    Some(t) => if fuel == 0 {
                        None
                    } else {
                        resolve_type(defs, t@, (fuel - 1) as nat)
                    },
                    None => None,
                }
            },
        },
    }
}

fn is_named(name: &String, lit: &str) -> (r: bool)
    ensures
        r == (name@ == lit@),
{
    let l = String::from_str(lit);
    *name == l
}

/// The primitive type of that name, if any.
fn primitive(name: &String) -> (r: Option<PrimitiveType>)
    ensures
        r == primitive_named(name@),
{
    if is_named(name, "string") {
        Some(PrimitiveType::Text)
    } else if is_named(name, "number") {
        Some(PrimitiveType::Number)
    } else if is_named(name, "boolean") {
        Some(PrimitiveType::Boolean)
    } else if is_named(name, "date") {
        Some(PrimitiveType::Date)
    } else if is_named(name, "time") {
        Some(PrimitiveType::Time)
    } else if is_named(name, "date and time") {
        Some(PrimitiveType::DateTime)
    } else if is_named(name, "days and time duration") {
        Some(PrimitiveType::DaysAndTimeDuration)
    } else if is_named(name, "years and months duration") {
        Some(PrimitiveType::YearsAndMonthsDuration)
    } else {
        None
    }
}

/// The first top-level definition named `name`.
fn find_top_level(defs: &Vec<ItemDefinition>, name: &String) -> (r: Option<usize>)
    ensures
        r matches Some(i) ==> i < defs@.len(),
        match r {
            Some(i) => top_level_from(defs@, name@, 0) == Some(i as int),
            None => top_level_from(defs@, name@, 0) is None,
        },
{
    let mut i: usize = 0;
    while i < defs.len()
        invariant
            i <= defs@.len(),
            top_level_from(defs@, name@, 0) == top_level_from(defs@, name@, i as int),
        decreases defs@.len() - i,
    {
        if defs[i].parent.is_none() && defs[i].name == *name {
            return Some(i);
        }
        i = i + 1;
    }
    None
}

/// Whether definition `i` has components.
fn components_exist(defs: &Vec<ItemDefinition>, i: usize) -> (r: bool)
    ensures
        r == has_components(defs@, i as int),
{
    let mut j: usize = 0;
    while j < defs.len()
        invariant
            j <= defs@.len(),
            forall|k: int| 0 <= k < j ==> (#[trigger] defs@[k]).parent != Some(i),
        decreases defs@.len() - j,
    {
        if let Some(p) = defs[j].parent {
            if p == i {
                assert(defs@[j as int].parent == Some(i));
                return true;
            }
        }
        j = j + 1;
    }
    false
}

/// Resolves a type reference to a primitive type, or to the structure of a top-level item
/// definition, following type references between definitions; anything else is an unknown type
/// reference. A chain of references longer than the number of definitions, which only a cycle
/// that validation rejects can make, counts as unknown too.
pub fn resolve_type_ref(definitions: &Definitions, type_ref: &String) -> (r: Result<ItemType, DmnError>)
    ensures
        match resolve_type(definitions.item_definitions@, type_ref@, definitions.item_definitions@.len()) {
            Some(t) => r == Ok::<ItemType, DmnError>(t),
            None => r == Err::<ItemType, DmnError>(DmnError::UnknownTypeReference(*type_ref)),
        },
{
    let defs = &definitions.item_definitions;
    let mut name = type_ref.clone();
    let mut fuel: usize = defs.len();
    loop
        invariant
            defs == &definitions.item_definitions,
            fuel <= defs@.len(),
            resolve_type(defs@, type_ref@, defs@.len() as nat) == resolve_type(defs@, name@, fuel as nat),
        decreases fuel,
    {
        if let Some(p) = primitive(&name) {
            return Ok(ItemType::Primitive(p));
        }
        let i = match find_top_level(defs, &name) {
            Some(i) => i,
            None => {
                return Err(DmnError::UnknownTypeReference(type_ref.clone()));
            },
        };
        if components_exist(defs, i) {
            return Ok(ItemType::Structure(i));
        }
        match &defs[i].type_ref {
            Some(t) => {
                if fuel == 0 {
                    return Err(DmnError::UnknownTypeReference(type_ref.clone()));
                }
                name = t.clone();
                fuel = fuel - 1;
            },
            None => {
                return Err(DmnError::UnknownTypeReference(type_ref.clone()));
            },
        }
    }
}

} // verus!
