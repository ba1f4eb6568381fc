use js_memory_manager::gc::{GCConfiguration, GarbageCollector};
use js_memory_manager::object::{JSObjectType, JSValue};

#[test]
fn roots_survive_garbage_is_freed() {
    let mut gc = GarbageCollector::new();
    let a = gc.create_object(JSObjectType::Object);
    gc.add_root(a.id);
    let b = gc.create_object(JSObjectType::Object);
    gc.release_object(b.id); // host drops its only share of B
    let freed_before = gc.statistics().objects_freed;
    gc.collect();
    // A is still reachable: reads succeed
    assert_eq!(gc.get_object_type(a.id), 0);
    assert!(matches!(gc.get_property(a.id, "anything"), JSValue::Undefined));
    // B is gone
    assert_eq!(gc.get_object_type(b.id), -1);
    assert!(gc.statistics().objects_freed >= freed_before + 1);
}

#[test]
fn child_survives_through_property_edge_then_dies() {
    let mut gc = GarbageCollector::new();
    let a = gc.create_object(JSObjectType::Object);
    gc.add_root(a.id);
    let c = gc.create_object(JSObjectType::Object);
    gc.set_property(a.id, "child", JSValue::Object(c.id));
    gc.release_object(c.id); // only the property edge keeps C
    gc.collect();
    assert_eq!(gc.get_object_type(c.id), 0); // C survives

    gc.set_property(a.id, "child", JSValue::Null); // drop the live reference
    gc.collect();
    assert_eq!(gc.get_object_type(c.id), -1); // C is freed
}

#[test]
fn finalizer_runs_exactly_once() {
    let mut gc = GarbageCollector::new();
    let d = gc.create_object(JSObjectType::Object);
    gc.set_finalizer(d.id, 7);
    gc.release_object(d.id); // drop the last external handle; not rooted
    gc.collect();
    let fins = gc.take_pending_finalizers();
    assert_eq!(fins, vec![7u64]);
    gc.collect();
    let fins_again = gc.take_pending_finalizers();
    assert!(fins_again.is_empty());
}

#[test]
fn mark_transitivity_and_unmark() {
    let mut gc = GarbageCollector::new();
    let a = gc.create_object(JSObjectType::Object);
    let b = gc.create_object(JSObjectType::Object);
    let c = gc.create_object(JSObjectType::Object);
    gc.set_property(a.id, "next", JSValue::Object(b.id));
    gc.set_property(b.id, "next", JSValue::Object(c.id));
    // a cycle must not hang the mark phase
    gc.set_property(c.id, "back", JSValue::Object(a.id));
    gc.mark(a.id);
    assert!(gc.objects[a.id].as_ref().unwrap().is_marked());
    assert!(gc.objects[b.id].as_ref().unwrap().is_marked());
    assert!(gc.objects[c.id].as_ref().unwrap().is_marked());
    for id in [a.id, b.id, c.id] {
        gc.objects[id].as_mut().unwrap().unmark();
    }
    assert!(!gc.objects[a.id].as_ref().unwrap().is_marked());
    assert!(!gc.objects[b.id].as_ref().unwrap().is_marked());
    assert!(!gc.objects[c.id].as_ref().unwrap().is_marked());
}

#[test]
fn statistics_are_monotonic() {
    let mut gc = GarbageCollector::new();
    let mut last_alloc = gc.statistics().allocation_count;
    let mut last_coll = gc.statistics().collection_count;
    for round in 0..4usize {
        let o = gc.create_object(JSObjectType::Object);
        if round % 2 == 0 {
            gc.release_object(o.id);
        }
        gc.collect();
        let s = gc.statistics();
        assert!(s.allocation_count >= last_alloc);
        assert!(s.collection_count >= last_coll);
        last_alloc = s.allocation_count;
        last_coll = s.collection_count;
    }
    assert_eq!(gc.statistics().allocation_count, 4);
    assert_eq!(gc.statistics().collection_count, 4);
}

#[test]
fn externally_shared_survivors_are_promoted() {
    let mut gc = GarbageCollector::new();
    let a = gc.create_object(JSObjectType::Object);
    gc.add_root(a.id); // rooted and externally held
    gc.collect();
    // A survived and, carrying an external share, moved to the old generation
    assert!(gc.old_generation.contains(&a.id));
    assert!(!gc.young_generation.contains(&a.id));
    assert_eq!(gc.get_object_type(a.id), 0);
}

#[test]
fn root_registration_is_idempotent_and_removal_works() {
    let mut gc = GarbageCollector::new();
    let a = gc.create_object(JSObjectType::Object);
    gc.add_root(a.id);
    gc.add_root(a.id);
    assert_eq!(gc.roots.len(), 1);
    gc.remove_root(a.id);
    assert!(gc.roots.is_empty());
    gc.remove_root(a.id); // removing an unregistered root is a no-op
    assert!(gc.roots.is_empty());

    // without the root and without a handle, A is collected
    gc.release_object(a.id);
    gc.collect();
    assert_eq!(gc.get_object_type(a.id), -1);
}

#[test]
fn configure_replaces_configuration() {
    let mut gc = GarbageCollector::new();
    let cfg = GCConfiguration {
        young_gen_threshold_kb: 1,
        old_gen_threshold_kb: 2,
        max_pause_ms: 3,
        incremental: false,
        verbose: true,
    };
    gc.configure(cfg);
    assert_eq!(gc.config, cfg);
    let d = GCConfiguration::default();
    assert_eq!(d.young_gen_threshold_kb, 256);
    assert_eq!(d.old_gen_threshold_kb, 4096);
}

#[test]
fn shape_convergence_and_divergence() {
    let mut gc = GarbageCollector::new();
    let a = gc.create_object(JSObjectType::Object);
    let b = gc.create_object(JSObjectType::Object);
    for key in ["p", "q", "r"] {
        gc.set_property(a.id, key, JSValue::Null);
        gc.set_property(b.id, key, JSValue::Boolean(false));
    }
    let sa = gc.objects[a.id].as_ref().unwrap().inner.shape;
    let sb = gc.objects[b.id].as_ref().unwrap().inner.shape;
    assert_eq!(sa, sb);
    // diverge
    gc.set_property(b.id, "s", JSValue::Null);
    let sb2 = gc.objects[b.id].as_ref().unwrap().inner.shape;
    assert_ne!(sa, sb2);
}
