use rbx_dom::reflection::{
    Dump, DumpClass, DumpClassMember, DumpClassProperty, PropertySecurity, Security, Serialization,
    ValueCategory, ValueType,
};

fn property(name: &str, category: ValueCategory, can_save: bool) -> DumpClassMember {
    DumpClassMember::Property(DumpClassProperty {
        name: name.to_owned(),
        value_type: ValueType { name: "bool".to_owned(), category },
        serialization: Serialization { can_save, can_load: true },
        security: PropertySecurity { read: Security::Unrestricted, write: Security::PluginSecurity },
        tags: Vec::new(),
    })
}

fn sample() -> Dump {
    Dump {
        classes: vec![
            DumpClass {
                name: "Workspace".to_owned(),
                superclass: "Model".to_owned(),
                tags: Vec::new(),
                members: vec![
                    DumpClassMember::Function { name: "FilteringEnabled".to_owned() },
                    property("FilteringEnabled", ValueCategory::Primitive, true),
                    DumpClassMember::Unknown,
                    property("Gravity", ValueCategory::Primitive, false),
                ],
            },
            DumpClass {
                name: "Workspace".to_owned(),
                superclass: "Model".to_owned(),
                tags: Vec::new(),
                members: vec![property("Terrain", ValueCategory::Class, true)],
            },
        ],
        enums: Vec::new(),
    }
}

#[test]
fn lookup_finds_property_of_first_class() {
    let d = sample();
    let p = d.lookup(&"Workspace".to_owned(), &"FilteringEnabled".to_owned()).unwrap();
    assert_eq!(p.category, ValueCategory::Primitive);
    assert!(p.serialization.can_save);
    assert_eq!(p.security.read, Security::Unrestricted);
    assert_eq!(p.security.write, Security::PluginSecurity);
    let g = d.lookup(&"Workspace".to_owned(), &"Gravity".to_owned()).unwrap();
    assert!(!g.serialization.can_save);
}

#[test]
fn lookup_misses_are_none() {
    let d = sample();
    assert_eq!(d.lookup(&"Lighting".to_owned(), &"FilteringEnabled".to_owned()), None);
    assert_eq!(d.lookup(&"Workspace".to_owned(), &"Terrain".to_owned()), None);
    assert_eq!(d.lookup(&"Workspace".to_owned(), &"Missing".to_owned()), None);
}
