use js_memory_manager::string_interner::{
    clear_interner, get_interner_stats, InternedString, StringInterner,
};
use std::collections::HashMap;

#[test]
fn test_string_interning() {
    let mut interner = StringInterner::new();

    // Create multiple identical strings
    let s1 = InternedString::new(&mut interner, "hello world");
    let s2 = InternedString::new(&mut interner, "hello world");
    let s3 = InternedString::new(&mut interner, "hello world");

    // Different content should be different interned strings
    let s4 = InternedString::new(&mut interner, "different");

    // Identity equality - all identical strings share the same identity
    assert!(s1.id == s2.id);
    assert!(s1.id == s3.id);

    // Different content should not be identity equal
    assert!(s1.id != s4.id);

    // Value equality
    assert_eq!(s1.as_str(), "hello world");
    assert_eq!(s2.as_str(), "hello world");
    assert_eq!(s3.as_str(), "hello world");
    assert_eq!(s4.as_str(), "different");

    // Usable in hash maps; identity-equal keys collapse to one entry
    let mut map = HashMap::new();
    map.insert(s1.clone(), 1);
    map.insert(s2.clone(), 2); // overwrites the first entry since they are equal

    assert_eq!(map.len(), 1);
    assert_eq!(map.get(&s3), Some(&2)); // s3 finds the entry inserted through s2
}

#[test]
fn interner_len_and_clear() {
    let mut interner = StringInterner::new();
    assert!(interner.is_empty());
    interner.intern("a");
    interner.intern("b");
    interner.intern("a");
    assert_eq!(interner.len(), 2);
    assert!(!interner.is_empty());
    clear_interner(&mut interner);
    assert!(interner.is_empty());
}

#[test]
fn interner_memory_estimate() {
    let mut interner = StringInterner::new();
    interner.intern("abc");
    interner.intern("d");
    // 3 + 8 for "abc", 1 + 8 for "d"
    let (count, memory) = get_interner_stats(&interner);
    assert_eq!(count, 2);
    assert_eq!(memory, 20);
}

#[test]
fn intern_empty_string_is_canonical() {
    let mut interner = StringInterner::new();
    let a = interner.intern("");
    let b = interner.intern("");
    assert_eq!(a.id, b.id);
    assert_eq!(a.as_str(), "");
    assert_eq!(interner.len(), 1);
}
