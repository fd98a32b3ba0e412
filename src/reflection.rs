use vstd::prelude::*;

verus! {

/// The class and enum metadata that an external provider supplies.
#[derive(Debug)]
pub struct Dump {
    pub classes: Vec<DumpClass>,
    pub enums: Vec<DumpEnum>,
}

#[derive(Debug)]
pub struct DumpClass {
    pub name: String,
    pub superclass: String,
    pub tags: Vec<String>,
    pub members: Vec<DumpClassMember>,
}

#[derive(Debug)]
pub enum DumpClassMember {
    Property(DumpClassProperty),
    Function { name: String },
    Event { name: String },
    Unknown,
}

#[derive(Debug)]
pub struct DumpClassProperty {
    pub name: String,
    pub value_type: ValueType,
    pub serialization: Serialization,
    pub security: PropertySecurity,
    pub tags: Vec<String>,
}

#[derive(Debug)]
pub struct ValueType {
    pub name: String,
    pub category: ValueCategory,
}

#[derive(Debug, Clone, Copy, PartialEq, Eq, Structural)]
pub enum ValueCategory {
    /// Lua primitives like float or string
    Primitive,
    /// Data types like Vector3 or CFrame
    DataType,
    /// An enum like FormFactor or Genre
    Enum,
    /// An instance reference
    Class,
}

#[derive(Debug, Clone, Copy, PartialEq, Eq, Structural)]
pub enum Security {
    /// No security is required (written `None` in the dump).
    Unrestricted,
    LocalUserSecurity,
    PluginSecurity,
    RobloxScriptSecurity,
    NotAccessibleSecurity,
    RobloxSecurity,
}

#[derive(Debug, Clone, Copy, PartialEq, Eq, Structural)]
pub struct PropertySecurity {
    pub read: Security,
    pub write: Security,
}

#[derive(Debug, Clone, Copy, PartialEq, Eq, Structural)]
pub struct Serialization {
    pub can_save: bool,
    pub can_load: bool,
}

#[derive(Debug)]
pub struct DumpEnum {
    pub name: String,
    pub items: Vec<DumpEnumItem>,
}

#[derive(Debug)]
pub struct DumpEnumItem {
    pub name: String,
    pub value: u32,
}

/// What the codec needs to know of one property.
#[derive(Debug, Clone, Copy, PartialEq, Eq, Structural)]
pub struct PropertyDescriptor {
    pub category: ValueCategory,
    pub serialization: Serialization,
    pub security: PropertySecurity,
}

pub open spec fn descriptor_of(p: DumpClassProperty) -> PropertyDescriptor {
    PropertyDescriptor {
        category: p.value_type.category,
        serialization: p.serialization,
        security: p.security,
    }
}

/// `i` is the first index of a class named `name`.
pub open spec fn is_first_class(cs: Seq<DumpClass>, name: Seq<char>, i: int) -> bool {
    &&& 0 <= i < cs.len()
    &&& cs[i].name@ == name
    &&& forall|j: int| 0 <= j < i ==> cs[j].name@ != name
}

pub open spec fn is_property_named(m: DumpClassMember, name: Seq<char>) -> bool {
    m matches DumpClassMember::Property(p) && p.name@ == name
}

/// `i` is the first index of a property member named `name`.
pub open spec fn is_first_property(ms: Seq<DumpClassMember>, name: Seq<char>, i: int) -> bool {
    &&& 0 <= i < ms.len()
    &&& is_property_named(ms[i], name)
    &&& forall|j: int| 0 <= j < i ==> !is_property_named(#[trigger] ms[j], name)
}

/// What `lookup` returns: the property's descriptor from the first class of
/// that name, if that class declares such a property.
pub open spec fn lookup_spec(d: Dump, class: Seq<char>, property: Seq<char>) -> Option<PropertyDescriptor> {
    if exists|i: int| is_first_class(d.classes@, class, i) {
        let i = choose|i: int| is_first_class(d.classes@, class, i);
        let ms = d.classes@[i].members@;
        if exists|k: int| is_first_property(ms, property, k) {
            let k = choose|k: int| is_first_property(ms, property, k);
            match ms[k] {
                DumpClassMember::Property(p) => Some(descriptor_of(p)),
                _ => None,
            }
        } else {
            None
        }
    } else {
        None
    }
}

impl Dump {
    /// The metadata of `property` on `class`, if the dump describes it.
    pub fn lookup(&self, class: &String, property: &String) -> (r: Option<PropertyDescriptor>)
        ensures
            r == lookup_spec(*self, class@, property@),
    {
        let mut i: usize = 0;
        while i < self.classes.len()
            invariant
                i <= self.classes@.len(),
                forall|j: int| 0 <= j < i ==> self.classes@[j].name@ != class@,
            decreases self.classes@.len() - i,
        {
            if self.classes[i].name.eq(class) {
                let members = &self.classes[i].members;
                proof {
                    assert(is_first_class(self.classes@, class@, i as int));
                    assert forall|x: int| is_first_class(self.classes@, class@, x) implies x == i by {
                        if x < i {
                        } else if x > i {
                            assert(self.classes@[i as int].name@ == class@);
                        }
                    }
                }
                let mut k: usize = 0;
                while k < members.len()
                    invariant
                        k <= members@.len(),
                        i < self.classes@.len(),
                        is_first_class(self.classes@, class@, i as int),
                        *members == self.classes@[i as int].members,
                        forall|j: int| 0 <= j < k ==> !is_property_named(#[trigger] members@[j], property@),
                    decreases members@.len() - k,
                {
                    match &members[k] {
                        DumpClassMember::Property(p) => {
                            if p.name.eq(property) {
                                proof {
                                    assert(is_first_property(members@, property@, k as int));
                                    assert forall|x: int| is_first_property(members@, property@, x) implies x == k by {
                                        if x > k {
                                            assert(is_property_named(members@[k as int], property@));
                                        }
                                    }
                                    let ci = choose|x: int| is_first_class(self.classes@, class@, x);
                                    assert(ci == i);
                                    let ck = choose|x: int| is_first_property(members@, property@, x);
                                    assert(ck == k);
                                    assert(members@[k as int] == DumpClassMember::Property(*p));
                                }
                                return Some(PropertyDescriptor {
                                    category: p.value_type.category,
                                    serialization: p.serialization,
                                    security: p.security,
                                });
                            }
                        },
                        _ => {},
                    }
                    k = k + 1;
                }
                return None;
            }
            i = i + 1;
        }
        None
    }
}

} // verus!
