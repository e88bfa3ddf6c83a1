use std::collections::HashSet;
use std::mem;

use classlang::containers::{IdSet, PropMap};
use classlang::meta::ClassMeta;
use classlang::registry::{InMemoryRegistry, TypeRegistery};
use classlang::types::{Property, Type};

// Helper to create a property: reserve its id, then define it with the
// declaring class as its source.
fn create_property(
    reg: &mut InMemoryRegistry,
    prop_name: &str,
    class_id: u32,
    prop_type: Type,
) -> Property {
    let prop_id = reg.add_property_id(prop_name, class_id);
    let property = Property { id: prop_id, inner_type: prop_type, source: class_id };
    reg.add_property(prop_id, property).unwrap();
    property
}

fn id_set(ids: &[u32]) -> IdSet {
    let mut s = IdSet::new();
    for &x in ids {
        s.insert(x);
    }
    s
}

// Helper to set up a class with properties.
fn setup_class(
    reg: &mut InMemoryRegistry,
    class_name: &str,
    parents: IdSet,
    properties: Vec<(&str, Type)>,
) -> u32 {
    let class_id = reg.add_class_id(class_name);
    let mut props_map = PropMap::new();
    for (prop_name, prop_type) in properties {
        let property = create_property(reg, prop_name, class_id, prop_type);
        props_map.insert(prop_name.to_string(), property);
    }
    let class_meta = ClassMeta::new(reg, class_id, parents, props_map);
    reg.add_class(class_id, class_meta).unwrap();
    class_id
}

fn clash_sources(meta: &ClassMeta, name: &str) -> HashSet<u32> {
    let set = meta.clashing_properties.get(name).unwrap();
    let mut out = HashSet::new();
    for i in 0..set.len() {
        out.insert(set.index(i).source);
    }
    out
}

fn shadow_sources(meta: &ClassMeta, name: &str) -> HashSet<u32> {
    let set = meta.shadowed_properties.get(name).unwrap();
    let mut out = HashSet::new();
    for i in 0..set.len() {
        out.insert(set.index(i).source);
    }
    out
}

#[test]
fn test_enum_size() {
    assert_eq!(mem::size_of::<Type>(), 8, "Type should be exactly 8 bytes");
}

#[test]
fn test_simple_inheritance() {
    let mut registry = InMemoryRegistry::new();

    let a_id = setup_class(
        &mut registry,
        "A",
        id_set(&[]),
        vec![("a1", Type::Int), ("a2", Type::String)],
    );

    let b_id = setup_class(&mut registry, "B", id_set(&[a_id]), vec![("b1", Type::Float)]);

    let b_meta = registry.get_class(b_id).unwrap();
    assert!(b_meta.accessible_properties.contains_key("a1"), "B should inherit a1 from A");
    assert!(b_meta.accessible_properties.contains_key("a2"), "B should inherit a2 from A");
    assert!(b_meta.accessible_properties.contains_key("b1"), "B should have its own property b1");

    assert!(b_meta.ancestors.contains(a_id), "B's ancestors should include A");

    assert!(b_meta.clashing_properties.is_empty(), "There should be no clashing properties");
    assert!(b_meta.shadowed_properties.is_empty(), "There should be no shadowed properties");
}

#[test]
fn test_property_shadowing() {
    let mut registry = InMemoryRegistry::new();

    let a_id = setup_class(
        &mut registry,
        "A",
        id_set(&[]),
        vec![("name", Type::String), ("age", Type::Int)],
    );

    let b_id = setup_class(&mut registry, "B", id_set(&[a_id]), vec![("name", Type::String)]);

    let b_meta = registry.get_class(b_id).unwrap();
    assert!(b_meta.accessible_properties.contains_key("name"), "B should have name property");
    assert!(b_meta.accessible_properties.contains_key("age"), "B should inherit age from A");

    assert!(
        b_meta.shadowed_properties.contains_key("name"),
        "A's name property should be shadowed"
    );
    let shadowed = b_meta.shadowed_properties.get("name").unwrap();
    assert_eq!(shadowed.len(), 1, "There should be one shadowed name property");

    let accessible_name = b_meta.accessible_properties.get("name").unwrap();
    assert_eq!(accessible_name.source, b_id, "The accessible name property should be B's own");
}

#[test]
fn test_diamond_inheritance() {
    let mut registry = InMemoryRegistry::new();

    let a_id = setup_class(&mut registry, "A", id_set(&[]), vec![("a_prop", Type::Int)]);
    let b_id = setup_class(&mut registry, "B", id_set(&[a_id]), vec![("b_prop", Type::Float)]);
    let c_id = setup_class(&mut registry, "C", id_set(&[a_id]), vec![("c_prop", Type::String)]);
    let d_id = setup_class(&mut registry, "D", id_set(&[b_id, c_id]), vec![("d_prop", Type::Int)]);

    let d_meta = registry.get_class(d_id).unwrap();

    assert!(d_meta.accessible_properties.contains_key("a_prop"), "D should inherit a_prop from A");
    assert!(d_meta.accessible_properties.contains_key("b_prop"), "D should inherit b_prop from B");
    assert!(d_meta.accessible_properties.contains_key("c_prop"), "D should inherit c_prop from C");
    assert!(d_meta.accessible_properties.contains_key("d_prop"), "D should have its own d_prop");

    assert!(d_meta.ancestors.contains(a_id), "D's ancestors should include A");
    assert!(d_meta.ancestors.contains(b_id), "D's ancestors should include B");
    assert!(d_meta.ancestors.contains(c_id), "D's ancestors should include C");

    assert!(d_meta.clashing_properties.is_empty(), "There should be no clashing properties");
    assert!(d_meta.shadowed_properties.is_empty(), "There should be no shadowed properties");
}

#[test]
fn test_diamond_inheritance_without_clash() {
    let mut registry = InMemoryRegistry::new();

    let a_id = setup_class(&mut registry, "A", id_set(&[]), vec![("common_prop", Type::Int)]);
    let b_id = setup_class(&mut registry, "B", id_set(&[a_id]), vec![("b_prop", Type::Float)]);
    let c_id = setup_class(&mut registry, "C", id_set(&[a_id]), vec![("c_prop", Type::String)]);
    let d_id = setup_class(&mut registry, "D", id_set(&[b_id, c_id]), vec![("d_prop", Type::Int)]);

    let d_meta = registry.get_class(d_id).unwrap();

    assert!(
        d_meta.accessible_properties.contains_key("common_prop"),
        "D should inherit common_prop from A"
    );

    let common_prop = d_meta.accessible_properties.get("common_prop").unwrap();
    assert_eq!(common_prop.source, a_id, "The source of common_prop should be A");

    assert!(d_meta.clashing_properties.is_empty(), "There should be no clashing properties");
}

#[test]
fn test_property_clashing() {
    let mut registry = InMemoryRegistry::new();

    let x_id = setup_class(&mut registry, "X", id_set(&[]), vec![("shared_name", Type::Int)]);
    let y_id = setup_class(&mut registry, "Y", id_set(&[]), vec![("shared_name", Type::Float)]);
    let z_id = setup_class(&mut registry, "Z", id_set(&[x_id, y_id]), vec![("z_prop", Type::String)]);

    let z_meta = registry.get_class(z_id).unwrap();

    assert!(z_meta.clashing_properties.contains_key("shared_name"), "Z should have clashing shared_name");

    let clashing = z_meta.clashing_properties.get("shared_name").unwrap();
    assert_eq!(clashing.len(), 2, "There should be two clashing properties");

    let sources = clash_sources(z_meta, "shared_name");
    assert!(sources.contains(&x_id), "One clashing property should be from X");
    assert!(sources.contains(&y_id), "One clashing property should be from Y");

    assert!(
        !z_meta.accessible_properties.contains_key("shared_name"),
        "Z should not have shared_name in accessible properties due to clash"
    );
}

#[test]
fn test_shadow_resolving_clash() {
    let mut registry = InMemoryRegistry::new();

    let x_id = setup_class(&mut registry, "X", id_set(&[]), vec![("shared_name", Type::Int)]);
    let y_id = setup_class(&mut registry, "Y", id_set(&[]), vec![("shared_name", Type::Float)]);
    let z_id = setup_class(&mut registry, "Z", id_set(&[x_id, y_id]), vec![]);

    let z_meta = registry.get_class(z_id).unwrap();
    assert!(
        z_meta.clashing_properties.contains_key("shared_name"),
        "Z should have clashing shared_name properties"
    );

    let w_id = setup_class(&mut registry, "W", id_set(&[z_id]), vec![("shared_name", Type::String)]);

    let w_meta = registry.get_class(w_id).unwrap();

    assert!(
        !w_meta.clashing_properties.contains_key("shared_name"),
        "W should not have clashing shared_name due to shadowing"
    );

    assert!(
        w_meta.shadowed_properties.contains_key("shared_name"),
        "W should have shadowed shared_name properties"
    );

    let shadowed = w_meta.shadowed_properties.get("shared_name").unwrap();
    assert_eq!(shadowed.len(), 2, "W should shadow 2 properties (from X and Y)");

    let accessible_prop = w_meta.accessible_properties.get("shared_name").unwrap();
    assert_eq!(accessible_prop.source, w_id, "The accessible shared_name should be W's own");
}

#[test]
fn test_multi_level_inheritance() {
    let mut registry = InMemoryRegistry::new();

    let a_id = setup_class(
        &mut registry,
        "A",
        id_set(&[]),
        vec![("a_prop", Type::Int), ("common", Type::Int)],
    );
    let b_id = setup_class(&mut registry, "B", id_set(&[a_id]), vec![("b_prop", Type::Float)]);
    let c_id = setup_class(
        &mut registry,
        "C",
        id_set(&[b_id]),
        vec![("c_prop", Type::String), ("common", Type::String)],
    );
    let d_id = setup_class(&mut registry, "D", id_set(&[c_id]), vec![("d_prop", Type::Int)]);
    let e_id = setup_class(&mut registry, "E", id_set(&[d_id]), vec![("e_prop", Type::Float)]);

    let e_meta = registry.get_class(e_id).unwrap();

    assert!(e_meta.accessible_properties.contains_key("a_prop"), "E should inherit a_prop from A");
    assert!(e_meta.accessible_properties.contains_key("b_prop"), "E should inherit b_prop from B");
    assert!(e_meta.accessible_properties.contains_key("c_prop"), "E should inherit c_prop from C");
    assert!(e_meta.accessible_properties.contains_key("d_prop"), "E should inherit d_prop from D");
    assert!(e_meta.accessible_properties.contains_key("e_prop"), "E should have its own e_prop");

    assert!(e_meta.accessible_properties.contains_key("common"), "E should inherit common");
    let common_prop = e_meta.accessible_properties.get("common").unwrap();
    assert_eq!(common_prop.source, c_id, "The source of common should be C (not A)");

    assert!(e_meta.shadowed_properties.contains_key("common"), "A's common should be shadowed");
    let shadowed = e_meta.shadowed_properties.get("common").unwrap();
    assert_eq!(shadowed.len(), 1, "One property should be shadowed");
    let shadowed_prop = shadowed.index(0);
    assert_eq!(shadowed_prop.source, a_id, "Shadowed property should be from A");

    assert!(e_meta.ancestors.contains(a_id), "E's ancestors should include A");
    assert!(e_meta.ancestors.contains(b_id), "E's ancestors should include B");
    assert!(e_meta.ancestors.contains(c_id), "E's ancestors should include C");
    assert!(e_meta.ancestors.contains(d_id), "E's ancestors should include D");
}

#[test]
fn test_complex_diamond_with_shadowing_and_clashing() {
    let mut registry = InMemoryRegistry::new();

    let a_id = setup_class(&mut registry, "A", id_set(&[]), vec![("prop1", Type::Int)]);
    let b_id = setup_class(&mut registry, "B", id_set(&[a_id]), vec![]);
    let c_id = setup_class(
        &mut registry,
        "C",
        id_set(&[a_id]),
        vec![("prop1", Type::Float), ("prop2", Type::String)],
    );
    let d_id = setup_class(&mut registry, "D", id_set(&[b_id]), vec![]);
    let e_id = setup_class(&mut registry, "E", id_set(&[b_id, c_id]), vec![("prop2", Type::Int)]);
    let f_id = setup_class(&mut registry, "F", id_set(&[d_id, e_id]), vec![("prop3", Type::Float)]);

    let f_meta = registry.get_class(f_id).unwrap();

    assert!(
        f_meta.clashing_properties.contains_key("prop1"),
        "F should have clashing prop1 properties from A and C"
    );

    let prop1_clash = f_meta.clashing_properties.get("prop1").unwrap();
    assert_eq!(prop1_clash.len(), 2, "Should be two clashing prop1 properties");

    assert!(f_meta.accessible_properties.contains_key("prop2"), "F should inherit prop2 from E");
    let prop2 = f_meta.accessible_properties.get("prop2").unwrap();
    assert_eq!(prop2.source, e_id, "prop2 should be from E");

    assert!(
        f_meta.shadowed_properties.contains_key("prop2"),
        "C's prop2 should be shadowed in F"
    );

    assert!(f_meta.accessible_properties.contains_key("prop3"), "F should have its own prop3");
}

#[test]
fn diamond_without_redefinition() {
    // A declares x: Int; B and C inherit A; D inherits B and C. The single
    // origin reaches D twice yet stays one accessible entry.
    let mut registry = InMemoryRegistry::new();

    let a_id = setup_class(&mut registry, "A", id_set(&[]), vec![("x", Type::Int)]);
    let b_id = setup_class(&mut registry, "B", id_set(&[a_id]), vec![]);
    let c_id = setup_class(&mut registry, "C", id_set(&[a_id]), vec![]);
    let d_id = setup_class(&mut registry, "D", id_set(&[b_id, c_id]), vec![]);

    let d_meta = registry.get_class(d_id).unwrap();
    assert_eq!(d_meta.accessible_properties.get("x").unwrap().source, a_id);
    assert!(d_meta.clashing_properties.is_empty());
    assert!(d_meta.shadowed_properties.is_empty());
    assert_eq!(d_meta.ancestors.len(), 3);
    assert!(d_meta.ancestors.contains(a_id));
    assert!(d_meta.ancestors.contains(b_id));
    assert!(d_meta.ancestors.contains(c_id));
}

#[test]
fn clash_from_independent_roots() {
    // X declares n: Int; Y declares n: Float; Z inherits both: n is
    // ambiguous in Z.
    let mut registry = InMemoryRegistry::new();

    let x_id = setup_class(&mut registry, "X", id_set(&[]), vec![("n", Type::Int)]);
    let y_id = setup_class(&mut registry, "Y", id_set(&[]), vec![("n", Type::Float)]);
    let z_id = setup_class(&mut registry, "Z", id_set(&[x_id, y_id]), vec![]);

    let z_meta = registry.get_class(z_id).unwrap();
    assert!(!z_meta.accessible_properties.contains_key("n"));
    let clash = z_meta.clashing_properties.get("n").unwrap();
    assert_eq!(clash.len(), 2);
    let sources = clash_sources(z_meta, "n");
    assert_eq!(sources, HashSet::from([x_id, y_id]));
}

#[test]
fn shadowing_by_own_declaration() {
    // Same X, Y, Z; W inherits Z and declares its own n, which shadows the
    // two clashing originals.
    let mut registry = InMemoryRegistry::new();

    let x_id = setup_class(&mut registry, "X", id_set(&[]), vec![("n", Type::Int)]);
    let y_id = setup_class(&mut registry, "Y", id_set(&[]), vec![("n", Type::Float)]);
    let z_id = setup_class(&mut registry, "Z", id_set(&[x_id, y_id]), vec![]);
    let w_id = setup_class(&mut registry, "W", id_set(&[z_id]), vec![("n", Type::String)]);

    let w_meta = registry.get_class(w_id).unwrap();
    assert_eq!(w_meta.accessible_properties.get("n").unwrap().source, w_id);
    assert!(!w_meta.clashing_properties.contains_key("n"));
    let shadowed = w_meta.shadowed_properties.get("n").unwrap();
    assert_eq!(shadowed.len(), 2);
    assert_eq!(shadow_sources(w_meta, "n"), HashSet::from([x_id, y_id]));
}

#[test]
fn five_level_chain_with_mid_level_override() {
    // A{common: Int} <- B <- C{common: String} <- D <- E: E resolves common
    // to C's definition, with A's original shadowed.
    let mut registry = InMemoryRegistry::new();

    let a_id = setup_class(&mut registry, "A", id_set(&[]), vec![("common", Type::Int)]);
    let b_id = setup_class(&mut registry, "B", id_set(&[a_id]), vec![]);
    let c_id = setup_class(&mut registry, "C", id_set(&[b_id]), vec![("common", Type::String)]);
    let d_id = setup_class(&mut registry, "D", id_set(&[c_id]), vec![]);
    let e_id = setup_class(&mut registry, "E", id_set(&[d_id]), vec![]);

    let e_meta = registry.get_class(e_id).unwrap();
    assert_eq!(e_meta.accessible_properties.get("common").unwrap().source, c_id);
    let shadowed = e_meta.shadowed_properties.get("common").unwrap();
    assert_eq!(shadowed.len(), 1);
    assert_eq!(shadowed.index(0).source, a_id);
}

#[test]
fn registry_lookups_and_types() {
    let mut registry = InMemoryRegistry::new();

    assert_eq!(registry.get_type("int"), Some(Type::Int));
    assert_eq!(registry.get_type("float"), Some(Type::Float));
    assert_eq!(registry.get_type("string"), Some(Type::String));
    assert_eq!(registry.get_type("Point"), None);

    let point = setup_class(&mut registry, "Point", id_set(&[]), vec![("x", Type::Int)]);
    assert_eq!(registry.get_type("Point"), Some(Type::Class(point)));
    assert_eq!(registry.get_class_id("Point"), Some(point));
    assert_eq!(registry.get_class_id("Missing"), None);

    let pid = registry.get_property_id("x", point).unwrap();
    let (prop, name) = registry.get_property_and_name(pid).unwrap();
    assert_eq!(prop.source, point);
    assert_eq!(name, "x");
    assert_eq!(registry.get_property(pid).unwrap().inner_type, Type::Int);
    assert_eq!(registry.get_property_id("y", point), None);

    let (_, cname) = registry.get_class_and_name(point).unwrap();
    assert_eq!(cname, "Point");

    // Interning the same class name again returns the same id.
    assert_eq!(registry.add_class_id("Point"), point);
}

#[test]
fn duplicate_definitions_are_refused() {
    let mut registry = InMemoryRegistry::new();

    let a_id = setup_class(&mut registry, "A", id_set(&[]), vec![("x", Type::Int)]);

    // Defining the class a second time fails.
    let meta = ClassMeta::new(&registry, a_id, id_set(&[]), PropMap::new());
    assert!(registry.add_class(a_id, meta).is_err());

    // Filling a property slot that is already defined fails.
    let pid = registry.get_property_id("x", a_id).unwrap();
    let again = Property { id: pid, inner_type: Type::Float, source: a_id };
    assert!(registry.add_property(pid, again).is_err());

    // A reserved slot holds the sentinel and may be filled once.
    let fresh = registry.add_property_id("y", a_id);
    assert_eq!(registry.get_property(fresh).unwrap().inner_type, Type::Invalid);
    assert!(!registry.get_property(fresh).unwrap().inner_type.is_valid());
    let prop = Property { id: fresh, inner_type: Type::Float, source: a_id };
    assert!(registry.add_property(fresh, prop).is_ok());
    assert_eq!(registry.get_property(fresh).unwrap().inner_type, Type::Float);
}

#[test]
fn type_packs_into_words() {
    assert_eq!(u64::from(Type::Int), 0);
    assert_eq!(u64::from(Type::Float), 1);
    assert_eq!(u64::from(Type::String), 2);
    assert_eq!(u64::from(Type::Class(42)), 3u64 | (42u64 << 32));
    assert_eq!(u64::from(Type::Class(u32::MAX)), 3u64 | ((u32::MAX as u64) << 32));
    assert_eq!(u64::from(Type::Invalid), 4);
    assert_eq!(usize::from(Type::Class(7)), (3u64 | (7u64 << 32)) as usize);
    assert!(Type::Class(7).is_valid());
    assert!(!Type::Invalid.is_valid());
}

#[test]
fn resolution_is_order_independent_for_two_parents() {
    // Merging the same parents in either order yields the same partitions.
    let mut r1 = InMemoryRegistry::new();
    let x1 = setup_class(&mut r1, "X", id_set(&[]), vec![("n", Type::Int)]);
    let y1 = setup_class(&mut r1, "Y", id_set(&[]), vec![("n", Type::Float), ("m", Type::Int)]);
    let z1 = setup_class(&mut r1, "Z", id_set(&[x1, y1]), vec![]);

    let mut r2 = InMemoryRegistry::new();
    let x2 = setup_class(&mut r2, "X", id_set(&[]), vec![("n", Type::Int)]);
    let y2 = setup_class(&mut r2, "Y", id_set(&[]), vec![("n", Type::Float), ("m", Type::Int)]);
    let z2 = setup_class(&mut r2, "Z", id_set(&[y2, x2]), vec![]);

    let m1 = r1.get_class(z1).unwrap();
    let m2 = r2.get_class(z2).unwrap();
    assert_eq!(clash_sources(m1, "n"), clash_sources(m2, "n"));
    assert!(!m1.accessible_properties.contains_key("n"));
    assert!(!m2.accessible_properties.contains_key("n"));
    assert_eq!(
        m1.accessible_properties.get("m").unwrap().source,
        m2.accessible_properties.get("m").unwrap().source
    );
}

#[test]
fn sources_lie_within_ancestors() {
    // Every record in the three partitions originates from an ancestor or
    // from the class itself.
    let mut registry = InMemoryRegistry::new();
    let a_id = setup_class(&mut registry, "A", id_set(&[]), vec![("prop1", Type::Int)]);
    let b_id = setup_class(&mut registry, "B", id_set(&[a_id]), vec![]);
    let c_id = setup_class(
        &mut registry,
        "C",
        id_set(&[a_id]),
        vec![("prop1", Type::Float), ("prop2", Type::String)],
    );
    let e_id = setup_class(&mut registry, "E", id_set(&[b_id, c_id]), vec![("prop2", Type::Int)]);

    let e_meta = registry.get_class(e_id).unwrap();
    let allowed = |src: u32| src == e_id || e_meta.ancestors.contains(src);
    for i in 0..e_meta.accessible_properties.entry_count() {
        assert!(allowed(e_meta.accessible_properties.val_at(i).source));
    }
    for i in 0..e_meta.clashing_properties.entry_count() {
        let set = e_meta.clashing_properties.set_at(i);
        for j in 0..set.len() {
            assert!(allowed(set.index(j).source));
        }
    }
    for i in 0..e_meta.shadowed_properties.entry_count() {
        let set = e_meta.shadowed_properties.set_at(i);
        for j in 0..set.len() {
            assert!(allowed(set.index(j).source));
        }
    }
}
