use js_memory_manager::gc::GarbageCollector;
use js_memory_manager::object::{JSObjectType, JSValue};
use js_memory_manager::string_interner::{get_interner_stats, InternedString};

#[test]
fn test_create_object() {
    let mut gc = GarbageCollector::new();
    let obj = gc.create_object(JSObjectType::Object);
    assert!(gc.get_object_type(obj.id) == 0);
}

#[test]
fn test_shape_based_properties() {
    let mut gc = GarbageCollector::new();

    // Create a basic object
    let obj1 = gc.create_object(JSObjectType::Object);

    // Add some properties
    let v1 = JSValue::String(InternedString::new(&mut gc.interner, "Object 1"));
    gc.set_property(obj1.id, "name", v1);
    gc.set_property(obj1.id, "value", JSValue::Number((42.0f64).to_bits()));

    // Create another object with the same property names
    let obj2 = gc.create_object(JSObjectType::Object);
    let v2 = JSValue::String(InternedString::new(&mut gc.interner, "Object 2"));
    gc.set_property(obj2.id, "name", v2);
    gc.set_property(obj2.id, "value", JSValue::Number((100.0f64).to_bits()));

    // Both objects should have the same shape
    let shape1 = gc.objects[obj1.id].as_ref().unwrap().inner.shape;
    let shape2 = gc.objects[obj2.id].as_ref().unwrap().inner.shape;
    assert_eq!(shape1, shape2);

    // Values should be correctly stored and retrieved
    assert!(matches!(gc.get_property(obj1.id, "name"), JSValue::String(s) if s.as_str() == "Object 1"));
    assert!(
        matches!(gc.get_property(obj1.id, "value"), JSValue::Number(n) if n == (42.0f64).to_bits())
    );

    assert!(matches!(gc.get_property(obj2.id, "name"), JSValue::String(s) if s.as_str() == "Object 2"));
    assert!(
        matches!(gc.get_property(obj2.id, "value"), JSValue::Number(n) if n == (100.0f64).to_bits())
    );

    // Add an additional property to obj2
    gc.set_property(obj2.id, "extra", JSValue::Boolean(true));

    // Now shapes should be different
    let shape1b = gc.objects[obj1.id].as_ref().unwrap().inner.shape;
    let shape2b = gc.objects[obj2.id].as_ref().unwrap().inner.shape;
    assert_ne!(shape1b, shape2b);

    // obj2 has one more property than obj1
    let count1 = gc.shapes.shapes[shape1b].property_count();
    let count2 = gc.shapes.shapes[shape2b].property_count();
    assert_eq!(count1 + 1, count2);

    // Original properties still accessible
    assert!(matches!(gc.get_property(obj2.id, "name"), JSValue::String(s) if s.as_str() == "Object 2"));
    assert!(
        matches!(gc.get_property(obj2.id, "value"), JSValue::Number(n) if n == (100.0f64).to_bits())
    );

    // New property also accessible
    assert!(matches!(gc.get_property(obj2.id, "extra"), JSValue::Boolean(b) if b == true));

    // Property shouldn't exist on obj1
    assert!(matches!(gc.get_property(obj1.id, "extra"), JSValue::Undefined));
}

#[test]
fn test_interned_strings_with_jsvalue() {
    let mut gc = GarbageCollector::new();

    // Create objects with string properties that have the same content
    let obj1 = gc.create_object(JSObjectType::Object);
    let obj2 = gc.create_object(JSObjectType::Object);

    // Set properties with identical content
    let a = JSValue::String(InternedString::new(&mut gc.interner, "John Doe"));
    gc.set_property(obj1.id, "name", a);
    let b = JSValue::String(InternedString::new(&mut gc.interner, "New York"));
    gc.set_property(obj1.id, "city", b);

    let c = JSValue::String(InternedString::new(&mut gc.interner, "John Doe"));
    gc.set_property(obj2.id, "name", c);
    let d = JSValue::String(InternedString::new(&mut gc.interner, "New York"));
    gc.set_property(obj2.id, "city", d);

    // Access the properties and verify they're interned
    if let JSValue::String(s1) = gc.get_property(obj1.id, "name") {
        if let JSValue::String(s2) = gc.get_property(obj2.id, "name") {
            // Both should carry the same identity
            assert!(s1.id == s2.id);
        } else {
            panic!("Expected string value");
        }
    } else {
        panic!("Expected string value");
    }

    // Check interning stats
    let (count, memory) = get_interner_stats(&gc.interner);
    println!("Interned strings: {}, Memory usage: {} bytes", count, memory);

    // 2 unique string values plus the 2 interned property keys
    assert_eq!(count, 4);
}

#[test]
fn property_round_trip_all_variants() {
    let mut gc = GarbageCollector::new();
    let o = gc.create_object(JSObjectType::Object);
    let target = gc.create_object(JSObjectType::Array);

    gc.set_property(o.id, "u", JSValue::Undefined);
    assert!(matches!(gc.get_property(o.id, "u"), JSValue::Undefined));

    gc.set_property(o.id, "n", JSValue::Null);
    assert!(matches!(gc.get_property(o.id, "n"), JSValue::Null));

    gc.set_property(o.id, "b", JSValue::Boolean(true));
    assert!(matches!(gc.get_property(o.id, "b"), JSValue::Boolean(true)));

    gc.set_property(o.id, "num", JSValue::Number((2.5f64).to_bits()));
    assert!(matches!(gc.get_property(o.id, "num"), JSValue::Number(x) if x == (2.5f64).to_bits()));

    let s = JSValue::String(InternedString::new(&mut gc.interner, "text"));
    gc.set_property(o.id, "s", s);
    assert!(matches!(gc.get_property(o.id, "s"), JSValue::String(x) if x.as_str() == "text"));

    gc.set_property(o.id, "o", JSValue::Object(target.id));
    assert!(matches!(gc.get_property(o.id, "o"), JSValue::Object(x) if x == target.id));
}

#[test]
fn update_in_place_keeps_shape() {
    let mut gc = GarbageCollector::new();
    let o = gc.create_object(JSObjectType::Object);
    gc.set_property(o.id, "x", JSValue::Number((1.0f64).to_bits()));
    let shape_first = gc.objects[o.id].as_ref().unwrap().inner.shape;
    gc.set_property(o.id, "x", JSValue::Number((2.0f64).to_bits()));
    let shape_second = gc.objects[o.id].as_ref().unwrap().inner.shape;
    assert_eq!(shape_first, shape_second);
    assert!(matches!(gc.get_property(o.id, "x"), JSValue::Number(n) if n == (2.0f64).to_bits()));
}

#[test]
fn scenario_numbers_and_missing_key() {
    let mut gc = GarbageCollector::new();
    let o = gc.create_object(JSObjectType::Object);
    gc.set_property(o.id, "x", JSValue::Number((1.0f64).to_bits()));
    gc.set_property(o.id, "y", JSValue::Number((2.5f64).to_bits()));
    assert!(matches!(gc.get_property(o.id, "x"), JSValue::Number(n) if n == (1.0f64).to_bits()));
    assert!(matches!(gc.get_property(o.id, "y"), JSValue::Number(n) if n == (2.5f64).to_bits()));
    assert!(matches!(gc.get_property(o.id, "z"), JSValue::Undefined));
}

#[test]
fn property_names_in_insertion_order() {
    let mut gc = GarbageCollector::new();
    let o = gc.create_object(JSObjectType::Object);
    gc.set_property(o.id, "first", JSValue::Null);
    gc.set_property(o.id, "second", JSValue::Null);
    let obj = gc.objects[o.id].as_ref().unwrap();
    let names = obj.property_names(&gc.shapes, &gc.interner);
    assert_eq!(names.len(), 2);
    assert_eq!(names[0], "first");
    assert_eq!(names[1], "second");
}

#[test]
fn type_codes_round_trip() {
    let mut gc = GarbageCollector::new();
    let o = gc.create_object(JSObjectType::from_code(5));
    assert_eq!(gc.get_object_type(o.id), 5);
    // unknown codes fall back to the plain object type
    let p = gc.create_object(JSObjectType::from_code(42));
    assert_eq!(gc.get_object_type(p.id), 0);
    assert_eq!(JSObjectType::Undefined.code(), 7);
}
