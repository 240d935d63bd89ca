//! The flat object graph of an `.rdo` document: objects with typed
//! properties, object-valued properties naming their children by id.
use vstd::prelude::*;

verus! {

#[derive(Debug, Clone, PartialEq)]
pub struct RdoObject {
    pub id: u64,
    pub ty_name: String,
    pub owner_id: u64,
    pub props: Vec<(String, RdoValue)>,
}

#[derive(Debug, Clone, PartialEq)]
pub enum RdoValue {
    Scalar { xml_type: ScalarType, bits: u64 },
    Bool(bool),
    String(String),
    Bytes { count: u32, data: Vec<u8> },
    Children(Vec<u64>),
}

#[derive(Debug, Clone, Copy, PartialEq, Eq)]
pub enum ScalarType {
    Float,
    Int32,
    UInt32,
    Int64,
    UInt64,
    UInt8,
}

/// The mathematical value of a property value.
pub enum SpecRdoValue {
    Scalar(ScalarType, u64),
    Bool(bool),
    Text(Seq<char>),
    Bytes(u32, Seq<u8>),
    Children(Seq<u64>),
}

/// The mathematical value of an object.
pub struct SpecRdoObject {
    pub id: u64,
    pub ty_name: Seq<char>,
    pub owner_id: u64,
    pub props: Seq<(Seq<char>, SpecRdoValue)>,
}

pub open spec fn view_rdo_value(v: RdoValue) -> SpecRdoValue {
    match v {
        RdoValue::Scalar { xml_type, bits } => SpecRdoValue::Scalar(xml_type, bits),
        RdoValue::Bool(b) => SpecRdoValue::Bool(b),
        RdoValue::String(s) => SpecRdoValue::Text(s@),
        RdoValue::Bytes { count, data } => SpecRdoValue::Bytes(count, data@),
        RdoValue::Children(ids) => SpecRdoValue::Children(ids@),
    }
}

pub open spec fn view_props(p: Seq<(String, RdoValue)>) -> Seq<(Seq<char>, SpecRdoValue)> {
    p.map_values(|e: (String, RdoValue)| (e.0@, view_rdo_value(e.1)))
}

pub open spec fn view_rdo_object(o: RdoObject) -> SpecRdoObject {
    SpecRdoObject { id: o.id, ty_name: o.ty_name@, owner_id: o.owner_id, props: view_props(o.props@) }
}

pub open spec fn view_rdo_objects(s: Seq<RdoObject>) -> Seq<SpecRdoObject> {
    s.map_values(|o: RdoObject| view_rdo_object(o))
}

impl ScalarType {
    pub open spec fn spec_name(self) -> Seq<char> {
        match self {
            ScalarType::Float => "Float"@,
            ScalarType::Int32 => "Int32"@,
            ScalarType::UInt32 => "UInt32"@,
            ScalarType::Int64 => "Int64"@,
            ScalarType::UInt64 => "UInt64"@,
            ScalarType::UInt8 => "UInt8"@,
        }
    }

    /// The type's name in an `.rdo` document.
    pub fn as_str(self) -> (r: &'static str)
        ensures
            r@ == self.spec_name(),
    {
        match self {
            ScalarType::Float => "Float",
            ScalarType::Int32 => "Int32",
            ScalarType::UInt32 => "UInt32",
            ScalarType::Int64 => "Int64",
            ScalarType::UInt64 => "UInt64",
            ScalarType::UInt8 => "UInt8",
        }
    }
}

/// The index of the first property named `name`.
pub open spec fn prop_index(props: Seq<(String, RdoValue)>, name: Seq<char>) -> Option<int> {
    if exists|i: int| 0 <= i < props.len() && props[i].0@ == name {
        Some(
            choose|i: int|
                0 <= i < props.len() && props[i].0@ == name && forall|j: int|
                    0 <= j < i ==> props[j].0@ != name,
        )
    } else {
        None
    }
}

fn text_eq(a: &str, b: &str) -> (r: bool)
    ensures
        r == (a@ == b@),
{
    let r: bool = crate::le::same_bytes(a.as_bytes(), b.as_bytes());
    proof {
        vstd::utf8::encode_utf8_decode_utf8(a@);
        vstd::utf8::encode_utf8_decode_utf8(b@);
    }
    r
}

impl RdoObject {
    /// The value of the first property named `name`.
    fn value(&self, name: &str) -> (r: Option<&RdoValue>)
        ensures
            match prop_index(self.props@, name@) {
                Some(i) => 0 <= i < self.props@.len() && r == Some(&self.props@[i].1),
                None => r is None,
            },
    {
        let mut i: usize = 0;
        while i < self.props.len()
            invariant
                i <= self.props@.len(),
                forall|j: int| 0 <= j < i ==> self.props@[j].0@ != name@,
            decreases self.props.len() - i,
        {
            if text_eq(self.props[i].0.as_str(), name) {
                proof {
                    assert(prop_index(self.props@, name@) == Some(i as int));
                }
                return Some(&self.props[i].1);
            }
            i += 1;
        }
        None
    }

    /// The bits of the scalar property named `name`.
    pub fn scalar(&self, name: &str) -> (r: Option<u64>)
        ensures
            r == (match prop_index(self.props@, name@) {
                Some(i) => match self.props@[i].1 {
                    RdoValue::Scalar { bits, .. } => Some(bits),
                    _ => None,
                },
                None => None,
            }),
    {
        match self.value(name) {
            Some(RdoValue::Scalar { bits, .. }) => Some(*bits),
            _ => None,
        }
    }

    /// The flag property named `name`.
    pub fn bool(&self, name: &str) -> (r: Option<bool>)
        ensures
            r == (match prop_index(self.props@, name@) {
                Some(i) => match self.props@[i].1 {
                    RdoValue::Bool(b) => Some(b),
                    _ => None,
                },
                None => None,
            }),
    {
        match self.value(name) {
            Some(RdoValue::Bool(value)) => Some(*value),
            _ => None,
        }
    }

    /// The string property named `name`.
    pub fn string(&self, name: &str) -> (r: Option<&str>)
        ensures
            match prop_index(self.props@, name@) {
                Some(i) => match self.props@[i].1 {
                    RdoValue::String(s) => r matches Some(t) && t@ == s@,
                    _ => r is None,
                },
                None => r is None,
            },
    {
        match self.value(name) {
            Some(RdoValue::String(value)) => Some(value.as_str()),
            _ => None,
        }
    }

    /// The count and bytes of the byte-block property named `name`.
    pub fn raw(&self, name: &str) -> (r: Option<(u32, &[u8])>)
        ensures
            match prop_index(self.props@, name@) {
                Some(i) => match self.props@[i].1 {
                    RdoValue::Bytes { count, data } => r matches Some((c, d)) && c == count && d@
                        == data@,
                    _ => r is None,
                },
                None => r is None,
            },
    {
        match self.value(name) {
            Some(RdoValue::Bytes { count, data }) => Some((*count, data.as_slice())),
            _ => None,
        }
    }

    /// The child ids of the object-valued property named `name`; none when
    /// there is no such property.
    pub fn child_ids(&self, name: &str) -> (r: Vec<u64>)
        ensures
            r@ == (match prop_index(self.props@, name@) {
                Some(i) => match self.props@[i].1 {
                    RdoValue::Children(ids) => ids@,
                    _ => Seq::empty(),
                },
                None => Seq::empty(),
            }),
    {
        match self.value(name) {
            Some(RdoValue::Children(ids)) => ids.clone(),
            _ => Vec::new(),
        }
    }
}

#[derive(Debug, Clone, Default, PartialEq)]
pub struct RdoGraph {
    pub objects: Vec<RdoObject>,
}

/// The index of the first object that `p` holds of.
pub open spec fn first_where(objects: Seq<RdoObject>, p: spec_fn(RdoObject) -> bool) -> Option<int> {
    if exists|i: int| 0 <= i < objects.len() && p(objects[i]) {
        Some(
            choose|i: int|
                0 <= i < objects.len() && p(objects[i]) && forall|j: int|
                    0 <= j < i ==> !p(objects[j]),
        )
    } else {
        None
    }
}

/// Objects with the id `id`.
pub open spec fn has_id(id: u64) -> spec_fn(RdoObject) -> bool {
    |o: RdoObject| o.id == id
}

pub open spec fn is_root(o: RdoObject) -> bool {
    o.owner_id == 0
}

/// Objects without an owner.
pub open spec fn root_test() -> spec_fn(RdoObject) -> bool {
    |o: RdoObject| is_root(o)
}

impl RdoGraph {
    /// The first object without an owner.
    pub fn root(&self) -> (r: Option<&RdoObject>)
        ensures
            match first_where(self.objects@, root_test()) {
                Some(i) => 0 <= i < self.objects@.len() && r == Some(&self.objects@[i]),
                None => r is None,
            },
    {
        let mut i: usize = 0;
        while i < self.objects.len()
            invariant
                i <= self.objects@.len(),
                forall|j: int| 0 <= j < i ==> !is_root(#[trigger] self.objects@[j]),
            decreases self.objects.len() - i,
        {
            if self.objects[i].owner_id == 0 {
                proof {
                    let p = root_test();
                    assert(p(self.objects@[i as int]));
                    assert(forall|j: int| 0 <= j < i ==> !p(#[trigger] self.objects@[j]));
                }
                return Some(&self.objects[i]);
            }
            i += 1;
        }
        proof {
            let p = root_test();
            assert(forall|j: int| 0 <= j < self.objects@.len() ==> !p(#[trigger] self.objects@[j]));
        }
        None
    }

    /// The first object with this id.
    pub fn by_id(&self, id: u64) -> (r: Option<&RdoObject>)
        ensures
            match first_where(self.objects@, has_id(id)) {
                Some(i) => 0 <= i < self.objects@.len() && r == Some(&self.objects@[i]),
                None => r is None,
            },
    {
        let mut i: usize = 0;
        while i < self.objects.len()
            invariant
                i <= self.objects@.len(),
                forall|j: int| 0 <= j < i ==> (#[trigger] self.objects@[j]).id != id,
            decreases self.objects.len() - i,
        {
            if self.objects[i].id == id {
                proof {
                    let p = has_id(id);
                    assert(p(self.objects@[i as int]));
                    assert(forall|j: int| 0 <= j < i ==> !p(#[trigger] self.objects@[j]));
                }
                return Some(&self.objects[i]);
            }
            i += 1;
        }
        proof {
            let p = has_id(id);
            assert(forall|j: int| 0 <= j < self.objects@.len() ==> !p(#[trigger] self.objects@[j]));
        }
        None
    }
}

} // verus!
