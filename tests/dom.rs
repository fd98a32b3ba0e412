use rbx_dom::dom::{DomError, InstanceBuilder, WeakDom};
use rbx_dom::font::{FontFace, FontStyle, FontWeight};
use rbx_dom::properties::PropertyMap;
use rbx_dom::referent::Ref;
use rbx_dom::variant::Variant;

fn key(s: &str) -> String {
    s.to_owned()
}

#[test]
fn builder_defaults_name_to_class() {
    let b = InstanceBuilder::new("DataModel");
    let dom = WeakDom::new(b).unwrap();
    let root = dom.root();
    assert_eq!(root.name, "DataModel");
    assert_eq!(root.class, "DataModel");
    assert!(root.parent().is_none());
    assert!(root.children().is_empty());
}

#[test]
fn construct_keeps_names_properties_and_child_order() {
    let workspace = InstanceBuilder::new("Workspace").with_property("FilteringEnabled", Variant::Bool(true));
    let lighting = InstanceBuilder::new("Lighting").with_name("Sun");
    let storage = InstanceBuilder::new("ReplicatedStorage");
    let ids = [workspace.referent(), lighting.referent(), storage.referent()];
    let root = InstanceBuilder::new("DataModel")
        .with_child(workspace)
        .with_children(vec![lighting, storage]);
    let root_ref = root.referent();

    let dom = WeakDom::new(root).unwrap();
    assert_eq!(dom.root_ref(), root_ref);
    assert_eq!(dom.root().children(), &ids[..]);

    let ws = dom.get_by_ref(ids[0]).unwrap();
    assert_eq!(ws.class, "Workspace");
    assert_eq!(ws.parent(), root_ref);
    assert_eq!(ws.properties.get(&key("FilteringEnabled")), Some(&Variant::Bool(true)));

    let light = dom.get_by_ref(ids[1]).unwrap();
    assert_eq!(light.name, "Sun");
    assert_eq!(light.class, "Lighting");
}

#[test]
fn referents_are_distinct() {
    let mut seen = std::collections::HashSet::new();
    for _ in 0..1000 {
        let r = InstanceBuilder::new("Part").referent();
        assert!(r.is_some());
        assert!(seen.insert(r));
    }
}

#[test]
fn referent_is_kept_through_builder_changes() {
    let b = InstanceBuilder::new("Part");
    let r = b.referent();
    let b = b.with_name("Other").with_property("Anchored", Variant::Bool(true));
    assert_eq!(b.referent(), r);
}

#[test]
fn batch_properties_last_write_wins() {
    let mut b = InstanceBuilder::new("Part");
    b.add_property("A", Variant::Int32(1));
    b.add_properties(vec![
        (key("A"), Variant::Int32(2)),
        (key("B"), Variant::Int32(3)),
        (key("B"), Variant::Int32(4)),
    ]);
    let b = b.with_properties(vec![(key("C"), Variant::String(key("x")))]);
    let dom = WeakDom::new(b).unwrap();
    let p = &dom.root().properties;
    assert_eq!(p.get(&key("A")), Some(&Variant::Int32(2)));
    assert_eq!(p.get(&key("B")), Some(&Variant::Int32(4)));
    assert_eq!(p.get(&key("C")), Some(&Variant::String(key("x"))));
    assert_eq!(p.get(&key("D")), None);
}

#[test]
fn in_place_mutators_match_fluent_ones() {
    let mut b = InstanceBuilder::new("Folder");
    b.set_name("Stuff");
    let c1 = InstanceBuilder::new("Part");
    let c2 = InstanceBuilder::new("Model");
    let c3 = InstanceBuilder::new("Script");
    let ids = [c1.referent(), c2.referent(), c3.referent()];
    b.add_child(c1);
    b.add_children(vec![c2, c3]);
    let dom = WeakDom::new(b).unwrap();
    assert_eq!(dom.root().name, "Stuff");
    assert_eq!(dom.root().children(), &ids[..]);
}

#[test]
fn insert_appends_child_and_subtree() {
    let mut dom = WeakDom::new(InstanceBuilder::new("DataModel")).unwrap();
    let root = dom.root_ref();
    let first = dom.insert(root, InstanceBuilder::new("Workspace")).unwrap();
    let part = InstanceBuilder::new("Part");
    let part_ref = part.referent();
    let second = dom.insert(root, InstanceBuilder::new("Model").with_child(part)).unwrap();
    assert_eq!(dom.root().children(), &[first, second][..]);
    assert_eq!(dom.get_by_ref(second).unwrap().children(), &[part_ref][..]);
    assert_eq!(dom.get_by_ref(part_ref).unwrap().parent(), second);
}

#[test]
fn insert_under_missing_parent_is_lookup_error() {
    let mut dom = WeakDom::new(InstanceBuilder::new("DataModel")).unwrap();
    let stray = InstanceBuilder::new("Folder").referent();
    assert_eq!(dom.insert(stray, InstanceBuilder::new("Part")), Err(DomError::LookupError));
    assert!(dom.root().children().is_empty());
}

#[test]
fn move_between_siblings() {
    let b = InstanceBuilder::new("B");
    let c = InstanceBuilder::new("C");
    let (rb, rc) = (b.referent(), c.referent());
    let mut dom = WeakDom::new(InstanceBuilder::new("A").with_child(b).with_child(c)).unwrap();
    let ra = dom.root_ref();
    dom.transfer_within(rb, rc).unwrap();
    assert_eq!(dom.get_by_ref(ra).unwrap().children(), &[rc][..]);
    assert_eq!(dom.get_by_ref(rc).unwrap().children(), &[rb][..]);
    assert_eq!(dom.get_by_ref(rb).unwrap().parent(), rc);
}

#[test]
fn move_under_own_descendant_is_structural_error() {
    let c = InstanceBuilder::new("C");
    let rc = c.referent();
    let b = InstanceBuilder::new("B").with_child(c);
    let rb = b.referent();
    let mut dom = WeakDom::new(InstanceBuilder::new("A").with_child(b)).unwrap();
    let ra = dom.root_ref();
    assert_eq!(dom.transfer_within(rb, rc), Err(DomError::StructuralError));
    assert_eq!(dom.transfer_within(rb, rb), Err(DomError::StructuralError));
    assert_eq!(dom.transfer_within(ra, rc), Err(DomError::StructuralError));
    assert_eq!(dom.get_by_ref(ra).unwrap().children(), &[rb][..]);
    assert_eq!(dom.get_by_ref(rb).unwrap().children(), &[rc][..]);
    assert_eq!(dom.get_by_ref(rc).unwrap().parent(), rb);
}

#[test]
fn move_with_missing_referent_is_lookup_error() {
    let b = InstanceBuilder::new("B");
    let rb = b.referent();
    let mut dom = WeakDom::new(InstanceBuilder::new("A").with_child(b)).unwrap();
    let stray = InstanceBuilder::new("X").referent();
    assert_eq!(dom.transfer_within(stray, rb), Err(DomError::LookupError));
    assert_eq!(dom.transfer_within(rb, stray), Err(DomError::LookupError));
}

#[test]
fn null_referent_is_never_live() {
    let dom = WeakDom::new(InstanceBuilder::new("A")).unwrap();
    assert!(dom.get_by_ref(Ref::none()).is_none());
}

#[test]
fn property_map_insert_and_overwrite() {
    let mut m = PropertyMap::new();
    assert!(!m.contains_key(&key("Size")));
    m.insert(key("Size"), Variant::Int64(5));
    m.insert(key("Size"), Variant::Int64(7));
    assert!(m.contains_key(&key("Size")));
    assert_eq!(m.get(&key("Size")), Some(&Variant::Int64(7)));
}

#[test]
fn font_face_keeps_fields() {
    let f = FontFace::new(key("rbxasset://fonts/x.json"), FontWeight::Bold, FontStyle::Italic, key(""));
    assert_eq!(f.family, "rbxasset://fonts/x.json");
    assert_eq!(f.weight, FontWeight::Bold);
    assert_eq!(f.style, FontStyle::Italic);
    assert_eq!(f.weight.value(), 700);
    assert_eq!(FontWeight::Thin.value(), 100);
    assert_eq!(FontWeight::Heavy.value(), 900);
    let v = Variant::Font(f.clone());
    assert_eq!(v, Variant::Font(f));
}

#[test]
fn destroy_removes_whole_subtree() {
    let b = InstanceBuilder::new("B");
    let c = InstanceBuilder::new("C");
    let (rb, rc) = (b.referent(), c.referent());
    let a = InstanceBuilder::new("A").with_child(b).with_child(c);
    let ra = a.referent();
    let keep = InstanceBuilder::new("Keep");
    let rk = keep.referent();
    let mut dom = WeakDom::new(InstanceBuilder::new("Root").with_child(a).with_child(keep)).unwrap();
    dom.destroy(ra).unwrap();
    assert!(dom.get_by_ref(ra).is_none());
    assert!(dom.get_by_ref(rb).is_none());
    assert!(dom.get_by_ref(rc).is_none());
    assert_eq!(dom.root().children(), &[rk][..]);
    assert!(dom.get_by_ref(rk).is_some());
}

#[test]
fn destroy_missing_is_lookup_error_and_root_is_refused() {
    let mut dom = WeakDom::new(InstanceBuilder::new("Root")).unwrap();
    let stray = InstanceBuilder::new("X").referent();
    assert_eq!(dom.destroy(stray), Err(DomError::LookupError));
    let root = dom.root_ref();
    assert_eq!(dom.destroy(root), Err(DomError::StructuralError));
    assert!(dom.get_by_ref(root).is_some());
}

#[test]
fn destroyed_referent_can_be_reinserted_elsewhere() {
    let b = InstanceBuilder::new("B");
    let rb = b.referent();
    let mut dom = WeakDom::new(InstanceBuilder::new("Root").with_child(b)).unwrap();
    dom.destroy(rb).unwrap();
    assert!(dom.root().children().is_empty());
    let root = dom.root_ref();
    let again = dom.insert(root, InstanceBuilder::new("B")).unwrap();
    assert_eq!(dom.root().children(), &[again][..]);
}

#[test]
fn set_name_and_property_change_only_that_instance() {
    let b = InstanceBuilder::new("Part");
    let rb = b.referent();
    let mut dom = WeakDom::new(InstanceBuilder::new("Root").with_child(b)).unwrap();
    let root = dom.root_ref();
    dom.set_name(rb, "Renamed").unwrap();
    dom.set_property(rb, "Anchored", Variant::Bool(true)).unwrap();
    let part = dom.get_by_ref(rb).unwrap();
    assert_eq!(part.name, "Renamed");
    assert_eq!(part.class, "Part");
    assert_eq!(part.properties.get(&key("Anchored")), Some(&Variant::Bool(true)));
    assert_eq!(part.parent(), root);
    assert_eq!(dom.root().name, "Root");
    let stray = InstanceBuilder::new("X").referent();
    assert_eq!(dom.set_name(stray, "Y"), Err(DomError::LookupError));
    assert_eq!(dom.set_property(stray, "Y", Variant::Int32(1)), Err(DomError::LookupError));
}

#[test]
fn deep_tree_keeps_every_level() {
    let leaf = InstanceBuilder::new("Leaf").with_property("Depth", Variant::Int32(3));
    let rl = leaf.referent();
    let mid1 = InstanceBuilder::new("Mid").with_name("First").with_child(leaf);
    let mid2 = InstanceBuilder::new("Mid").with_name("Second");
    let (r1, r2) = (mid1.referent(), mid2.referent());
    let dom = WeakDom::new(InstanceBuilder::new("Top").with_children(vec![mid1, mid2])).unwrap();
    assert_eq!(dom.root().children(), &[r1, r2][..]);
    assert_eq!(dom.get_by_ref(r1).unwrap().children(), &[rl][..]);
    assert_eq!(dom.get_by_ref(r1).unwrap().name, "First");
    assert_eq!(dom.get_by_ref(r2).unwrap().name, "Second");
    assert!(dom.get_by_ref(r2).unwrap().children().is_empty());
    let l = dom.get_by_ref(rl).unwrap();
    assert_eq!(l.parent(), r1);
    assert_eq!(l.properties.get(&key("Depth")), Some(&Variant::Int32(3)));
}
