//! The dataset model: attributes with ordered domains, and labeled objects.

use vstd::prelude::*;

verus! {

/// A declared attribute: its positional index into every object's value
/// sequence, its name, and its ordered domain of values.
pub struct Attr {
    /// Positional index, assigned by declaration order.
    pub id: usize,
    /// Attribute name.
    pub name: String,
    /// Ordered domain; values are unique and hold no space character.
    pub values: Vec<String>,
}

/// A labeled object: its numeric id, its class label, and one value per
/// declared attribute, in attribute order.
pub struct Object {
    /// Object id, as declared in the dataset.
    pub id: usize,
    /// Class label.
    pub class: String,
    /// Attribute values, in positional order of the declared attributes.
    pub attr: Vec<String>,
}

impl Object {
    /// Creates a new object.
    pub fn new(id: usize, class: String, attr: Vec<String>) -> (r: Object)
        ensures
            r.id == id,
            r.class == class,
            r.attr == attr,
    {
        Object { id, class, attr }
    }
}

/// The objects behind a sequence of borrowed objects, in order.
pub open spec fn derefs(s: Seq<&Object>) -> Seq<Object> {
    s.map_values(|o: &Object| *o)
}

/// The attributes behind a sequence of borrowed attributes, in order.
pub open spec fn attr_derefs(s: Seq<&Attr>) -> Seq<Attr> {
    s.map_values(|a: &Attr| *a)
}

/// A domain value: non-empty and free of space characters, so that it can be
/// recovered from the front of an edge label.
pub open spec fn plain_token(v: Seq<char>) -> bool {
    v.len() > 0 && forall|i: int| 0 <= i < v.len() ==> v[i] != ' '
}

/// Well-formedness of an attribute's domain: its values are unique plain
/// tokens.
pub open spec fn attr_domain_wf(a: Attr) -> bool {
    &&& forall|i: int| 0 <= i < a.values@.len() ==> plain_token(#[trigger] a.values@[i]@)
    &&& forall|i: int, j: int|
        0 <= i < j < a.values@.len() ==> a.values@[i]@ != a.values@[j]@
}

} // verus!
