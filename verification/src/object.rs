//! Script objects: a type tag, a shape reference, a dense value vector, a
//! mark bit and an optional finalizer. Property access goes through the
//! object's current shape; adding a new property transitions the shape.
//!
//! Object-valued slots hold arena indices into the collector's heap;
//! number slots carry the IEEE-754 bit pattern of the value, and the host
//! boundary converts to and from the machine double.

use vstd::prelude::*;
use crate::shape::ShapeTable;
use crate::string_interner::{InternedString, StringInterner};

verus! {

/// Type tag of a script object.
#[derive(Clone, Copy, Debug, PartialEq, Eq, Structural)]
pub enum JSObjectType {
    Object,
    Array,
    Function,
    String,
    Number,
    Boolean,
    Null,
    Undefined,
}

/// The integer code of a type tag at the host boundary.
pub open spec fn type_code(t: JSObjectType) -> int {
    match t {
        JSObjectType::Object => 0,
        JSObjectType::Array => 1,
        JSObjectType::Function => 2,
        JSObjectType::String => 3,
        JSObjectType::Number => 4,
        JSObjectType::Boolean => 5,
        JSObjectType::Null => 6,
        JSObjectType::Undefined => 7,
    }
}

/// The type tag a host integer code denotes; unknown codes fall back to
/// the plain object type.
pub open spec fn type_of_code(c: int) -> JSObjectType {
    if c == 1 {
        JSObjectType::Array
    } else if c == 2 {
        JSObjectType::Function
    } else if c == 3 {
        JSObjectType::String
    } else if c == 4 {
        JSObjectType::Number
    } else if c == 5 {
        JSObjectType::Boolean
    } else if c == 6 {
        JSObjectType::Null
    } else if c == 7 {
        JSObjectType::Undefined
    } else {
        JSObjectType::Object
    }
}

impl JSObjectType {
    /// Decode a host integer code; unknown codes yield `Object`.
    pub fn from_code(code: i32) -> (t: JSObjectType)
        ensures
            t == type_of_code(code as int),
    {
        if code == 1 {
            JSObjectType::Array
        } else if code == 2 {
            JSObjectType::Function
        } else if code == 3 {
            JSObjectType::String
        } else if code == 4 {
            JSObjectType::Number
        } else if code == 5 {
            JSObjectType::Boolean
        } else if code == 6 {
            JSObjectType::Null
        } else if code == 7 {
            JSObjectType::Undefined
        } else {
            JSObjectType::Object
        }
    }

    /// The host integer code of this tag.
    pub fn code(&self) -> (c: i32)
        ensures
            c == type_code(*self),
    {
        match self {
            JSObjectType::Object => 0,
            JSObjectType::Array => 1,
            JSObjectType::Function => 2,
            JSObjectType::String => 3,
            JSObjectType::Number => 4,
            JSObjectType::Boolean => 5,
            JSObjectType::Null => 6,
            JSObjectType::Undefined => 7,
        }
    }
}

/// A property value. `Number` carries the bit pattern of an IEEE-754
/// double; `String` an interned-string handle; `Object` the heap index of
/// the referenced object.
#[derive(Debug, PartialEq, Eq)]
pub enum JSValue {
    Undefined,
    Null,
    Boolean(bool),
    Number(u64),
    String(InternedString),
    Object(usize),
}

impl Clone for JSValue {
    /// Values copy exactly; an `Object` value copies the reference.
    fn clone(&self) -> (r: Self)
        ensures
            r == *self,
    {
        match self {
            JSValue::Undefined => JSValue::Undefined,
            JSValue::Null => JSValue::Null,
            JSValue::Boolean(b) => JSValue::Boolean(*b),
            JSValue::Number(n) => JSValue::Number(*n),
            JSValue::String(s) => JSValue::String(s.clone()),
            JSValue::Object(o) => JSValue::Object(*o),
        }
    }
}

/// The slot holding the property named `key`: the first position in
/// `names` whose interned identity resolves to `key` under `contents`.
pub open spec fn key_slot(names: Seq<usize>, contents: Seq<Seq<char>>, key: Seq<char>) -> Option<
    int,
>
    decreases names.len(),
{
    if names.len() == 0 {
        None
    } else if names[0] < contents.len() && contents[names[0] as int] == key {
        Some(0int)
    } else {
        match key_slot(names.drop_first(), contents, key) {
            Some(k) => Some(k + 1),
            None => None,
        }
    }
}

/// With distinct contents, looking a key up by its interned identity `n`
/// agrees with looking it up by content: the slot found is the first
/// occurrence of `n` in `names`, and no slot exists exactly when `names`
/// does not hold `n`.
proof fn lemma_key_slot_by_id(names: Seq<usize>, contents: Seq<Seq<char>>, key: Seq<char>, n: usize)
    requires
        forall|i: int, j: int| 0 <= i < j < contents.len() ==> contents[i] != contents[j],
        forall|k: int| 0 <= k < names.len() ==> names[k] < contents.len(),
        n < contents.len(),
        contents[n as int] == key,
    ensures
        match key_slot(names, contents, key) {
            Some(k) => 0 <= k < names.len() && names[k] == n && (forall|j: int|
                0 <= j < k ==> names[j] != n),
            None => forall|j: int| 0 <= j < names.len() ==> names[j] != n,
        },
    decreases names.len(),
{
    if names.len() > 0 {
        if names[0] < contents.len() && contents[names[0] as int] == key {
            if names[0] != n {
                if names[0] < n {
                    assert(contents[names[0] as int] != contents[n as int]);
                } else {
                    assert(contents[n as int] != contents[names[0] as int]);
                }
            }
        } else {
            assert(names[0] != n);
            let tail = names.drop_first();
            assert(forall|k: int| 0 <= k < tail.len() ==> tail[k] == names[k + 1]);
            lemma_key_slot_by_id(tail, contents, key, n);
            match key_slot(names, contents, key) {
                Some(k) => {
                    assert(names[k] == tail[k - 1]);
                    assert(forall|j: int| 1 <= j < k ==> names[j] == tail[j - 1]);
                },
                None => {
                    assert(forall|j: int| 1 <= j < names.len() ==> names[j] == tail[j - 1]);
                },
            }
        }
    }
}

/// A slot returned by `key_slot` indeed resolves to the key.
proof fn lemma_key_slot_resolves(names: Seq<usize>, contents: Seq<Seq<char>>, key: Seq<char>)
    ensures
        key_slot(names, contents, key) matches Some(k) ==> 0 <= k < names.len() && names[k]
            < contents.len() && contents[names[k] as int] == key,
    decreases names.len(),
{
    if names.len() > 0 {
        let tail = names.drop_first();
        assert(forall|k: int| 0 <= k < tail.len() ==> tail[k] == names[k + 1]);
        lemma_key_slot_resolves(tail, contents, key);
    }
}

/// Extending the interner does not move any slot: names resolved against
/// the old contents resolve the same way against the extension.
pub(crate) proof fn lemma_key_slot_extend(
    names: Seq<usize>,
    c1: Seq<Seq<char>>,
    c2: Seq<Seq<char>>,
    key: Seq<char>,
)
    requires
        c1.len() <= c2.len(),
        forall|i: int| 0 <= i < c1.len() ==> c2[i] == c1[i],
        forall|k: int| 0 <= k < names.len() ==> names[k] < c1.len(),
    ensures
        key_slot(names, c2, key) == key_slot(names, c1, key),
    decreases names.len(),
{
    if names.len() > 0 {
        assert(c2[names[0] as int] == c1[names[0] as int]);
        let tail = names.drop_first();
        assert(forall|k: int| 0 <= k < tail.len() ==> tail[k] == names[k + 1]);
        lemma_key_slot_extend(tail, c1, c2, key);
    }
}

/// Appending a name that does not resolve to `key` leaves `key`'s slot
/// unchanged.
proof fn lemma_key_slot_append(
    names: Seq<usize>,
    contents: Seq<Seq<char>>,
    key: Seq<char>,
    n: usize,
)
    requires
        !(n < contents.len() && contents[n as int] == key),
    ensures
        key_slot(names.push(n), contents, key) == key_slot(names, contents, key),
    decreases names.len(),
{
    let p = names.push(n);
    if names.len() == 0 {
        assert(p.len() == 1);
        assert(p[0] == n);
        assert(p.drop_first() =~= Seq::<usize>::empty());
    } else {
        assert(p[0] == names[0]);
        assert(p.drop_first() =~= names.drop_first().push(n));
        lemma_key_slot_append(names.drop_first(), contents, key, n);
    }
}

/// If no name resolves to `key`, there is no slot for it.
proof fn lemma_key_slot_none(names: Seq<usize>, contents: Seq<Seq<char>>, key: Seq<char>)
    requires
        forall|k: int|
            0 <= k < names.len() ==> names[k] < contents.len() && contents[names[k] as int] != key,
    ensures
        key_slot(names, contents, key) is None,
    decreases names.len(),
{
    if names.len() > 0 {
        let tail = names.drop_first();
        assert(forall|k: int| 0 <= k < tail.len() ==> tail[k] == names[k + 1]);
        lemma_key_slot_none(tail, contents, key);
    }
}

/// If no existing name resolves to `key` and `n` does, appending `n`
/// puts `key`'s slot exactly at the end.
proof fn lemma_key_slot_push_hit(
    names: Seq<usize>,
    contents: Seq<Seq<char>>,
    key: Seq<char>,
    n: usize,
)
    requires
        forall|k: int|
            0 <= k < names.len() ==> names[k] < contents.len() && contents[names[k] as int] != key,
        n < contents.len(),
        contents[n as int] == key,
    ensures
        key_slot(names.push(n), contents, key) == Some(names.len() as int),
    decreases names.len(),
{
    let p = names.push(n);
    if names.len() == 0 {
        assert(p[0] == n);
    } else {
        assert(p[0] == names[0]);
        let tail = names.drop_first();
        assert(forall|k: int| 0 <= k < tail.len() ==> tail[k] == names[k + 1]);
        assert(p.drop_first() =~= tail.push(n));
        lemma_key_slot_push_hit(tail, contents, key, n);
    }
}

/// Internal state of a script object: type tag, current shape, dense
/// value vector, mark bit, optional finalizer token.
pub struct JSObjectInner {
    pub obj_type: JSObjectType,
    pub shape: usize,
    pub values: Vec<JSValue>,
    pub marked: bool,
    pub finalizer: Option<u64>,
}

impl JSObjectInner {
    /// Consistency with a shape table: the shape exists, the value vector
    /// covers its property count, and excess slots hold `Undefined`.
    pub open spec fn wf(self, t: ShapeTable) -> bool {
        &&& self.shape < t.shapes@.len()
        &&& self.values@.len() >= t.names_of(self.shape as int).len()
        &&& forall|k: int|
            t.names_of(self.shape as int).len() <= k < self.values@.len()
                ==> self.values@[k] is Undefined
    }

    /// Every property name of the object's shape is an identity the given
    /// interner handed out.
    pub open spec fn names_valid(self, t: ShapeTable, itn: StringInterner) -> bool {
        forall|k: int|
            0 <= k < t.names_of(self.shape as int).len() ==> t.names_of(self.shape as int)[k]
                < itn.contents().len()
    }

    /// Every object-valued slot points below `heap_len`.
    pub open spec fn values_in_bounds(self, heap_len: int) -> bool {
        forall|k: int|
            0 <= k < self.values@.len() ==> (#[trigger] self.values@[k] matches JSValue::Object(o)
                ==> o < heap_len)
    }

    /// A fresh object state: the empty shape, no values, unmarked, no
    /// finalizer.
    pub fn new(obj_type: JSObjectType) -> (r: Self)
        ensures
            r.obj_type == obj_type,
            r.shape == 0,
            r.values@.len() == 0,
            r.marked == false,
            r.finalizer is None,
    {
        JSObjectInner {
            obj_type,
            shape: 0,
            values: Vec::new(),
            marked: false,
            finalizer: None,
        }
    }
}

/// The value the object holds for `key`, or `Undefined` when the key is
/// absent (or, defensively, when its slot lies outside the value vector).
pub open spec fn spec_get(
    o: JSObjectInner,
    t: ShapeTable,
    itn: StringInterner,
    key: Seq<char>,
) -> JSValue {
    match key_slot(t.names_of(o.shape as int), itn.contents(), key) {
        Some(k) => if 0 <= k < o.values@.len() {
            o.values@[k]
        } else {
            JSValue::Undefined
        },
        None => JSValue::Undefined,
    }
}

/// Whether the object's shape holds a property named `key`.
pub open spec fn spec_has_key(
    o: JSObjectInner,
    t: ShapeTable,
    itn: StringInterner,
    key: Seq<char>,
) -> bool {
    key_slot(t.names_of(o.shape as int), itn.contents(), key) is Some
}

/// A script object together with the collector's per-object bookkeeping:
/// `external_refs` counts the shares held outside the collector (host
/// handles), `in_generation` whether a generation list still holds the object.
pub struct JSObject {
    pub inner: JSObjectInner,
    pub external_refs: usize,
    pub in_generation: bool,
}

impl JSObject {
    /// A fresh object of the given type: empty shape, no values, not yet
    /// shared and not yet held by a collector generation list.
    pub fn new(obj_type: JSObjectType) -> (r: Self)
        ensures
            r.inner.obj_type == obj_type,
            r.inner.shape == 0,
            r.inner.values@.len() == 0,
            r.inner.marked == false,
            r.inner.finalizer is None,
            r.external_refs == 0,
            r.in_generation == false,
    {
        JSObject { inner: JSObjectInner::new(obj_type), external_refs: 0, in_generation: false }
    }

    /// Read the property named `key`; absent properties read as
    /// `Undefined`. The key is interned first, exactly as on writes.
    pub fn get_property(&self, shapes: &ShapeTable, interner: &mut StringInterner, key: &str) -> (r:
        JSValue)
        requires
            old(interner).wf(),
            shapes.wf(),
            self.inner.wf(*shapes),
            self.inner.names_valid(*shapes, *old(interner)),
        ensures
            final(interner).wf(),
            old(interner).contents().len() <= final(interner).contents().len() <= old(interner).contents().len() + 1,
            forall|i: int|
                0 <= i < old(interner).contents().len() ==> final(interner).contents()[i] == old(interner).contents()[i],
            old(interner).has_content(key@) ==> final(interner).contents() == old(interner).contents(),
            r == spec_get(self.inner, *shapes, *old(interner), key@),
    {
        let ks: InternedString = interner.intern(key);
        let ghost names: Seq<usize> = shapes.names_of(self.inner.shape as int);
        let idx_opt: Option<usize> = shapes.shapes[self.inner.shape].get_property_index(ks.id);
        proof {
            assert(shapes.record_wf(self.inner.shape as int));
            if old(interner).has_content(key@) {
                assert(interner.contents() == old(interner).contents());
                lemma_key_slot_by_id(names, old(interner).contents(), key@, ks.id);
            } else {
                assert(ks.id == old(interner).contents().len());
                assert forall|k: int|
                    0 <= k < names.len() implies names[k] < old(interner).contents().len()
                        && old(interner).contents()[names[k] as int] != key@ by {
                    assert(old(interner).contents()[names[k] as int] == old(interner).contents()[names[k] as int]);
                    if old(interner).contents()[names[k] as int] == key@ {
                        assert(old(interner).has_content(key@));
                    }
                }
                lemma_key_slot_none(names, old(interner).contents(), key@);
                assert(forall|k: int| 0 <= k < names.len() ==> names[k] != ks.id);
            }
        }
        match idx_opt {
            Some(idx) => {
                proof {
                    assert(spec_get(self.inner, *shapes, *old(interner), key@) == self.inner.values@[idx as int]) by {
                        assert(names[idx as int] == ks.id);
                        assert(old(interner).has_content(key@));
                        match key_slot(names, old(interner).contents(), key@) {
                            Some(k0) => {
                                assert(names[k0] == ks.id);
                                assert(shapes.shapes@[self.inner.shape as int].names_distinct());
                                if k0 < idx as int {
                                    assert(names[k0] != names[idx as int]);
                                } else if (idx as int) < k0 {
                                    assert(names[idx as int] != names[k0]);
                                }
                            },
                            None => {
                                assert(names[idx as int] != ks.id);
                            },
                        }
                    }
                }
                if idx < self.inner.values.len() {
                    self.inner.values[idx].clone()
                } else {
                    JSValue::Undefined
                }
            },
            None => {
                proof {
                    if old(interner).has_content(key@) {
                        match key_slot(names, old(interner).contents(), key@) {
                            Some(k0) => {
                                assert(names.contains(names[k0]));
                                assert(false);
                            },
                            None => {},
                        }
                    }
                }
                JSValue::Undefined
            },
        }
    }

    /// Write the property named `key`. If the current shape already holds
    /// the key, the value is written in place and the shape is untouched;
    /// otherwise the object transitions to the successor shape and the
    /// value lands in the fresh slot. Every other property reads exactly
    /// as before.
    #[verifier::loop_isolation(false)]
    pub fn set_property(
        &mut self,
        shapes: &mut ShapeTable,
        interner: &mut StringInterner,
        key: &str,
        value: JSValue,
    )
        requires
            old(shapes).wf(),
            old(interner).wf(),
            old(self).inner.wf(*old(shapes)),
            old(self).inner.names_valid(*old(shapes), *old(interner)),
        ensures
            final(shapes).wf(),
            final(interner).wf(),
            final(self).inner.wf(*final(shapes)),
            final(self).inner.names_valid(*final(shapes), *final(interner)),
            final(self).inner.obj_type == old(self).inner.obj_type,
            final(self).inner.marked == old(self).inner.marked,
            final(self).inner.finalizer == old(self).inner.finalizer,
            final(self).external_refs == old(self).external_refs,
            final(self).in_generation == old(self).in_generation,
            old(interner).contents().len() <= final(interner).contents().len() <= old(interner).contents().len() + 1,
            forall|i: int|
                0 <= i < old(interner).contents().len() ==> final(interner).contents()[i] == old(interner).contents()[i],
            old(interner).has_content(key@) ==> final(interner).contents() == old(interner).contents(),
            old(shapes).shapes@.len() <= final(shapes).shapes@.len() <= old(shapes).shapes@.len()
                + 1,
            forall|i: int|
                old(shapes).valid_shape(i) ==> final(shapes).names_of(i) == old(shapes).names_of(
                    i,
                ),
            forall|i: int|
                final(shapes).valid_shape(i) && !old(shapes).valid_shape(i) ==> i
                    == final(self).inner.shape as int,
            spec_has_key(old(self).inner, *old(shapes), *old(interner), key@) ==> {
                &&& final(self).inner.shape == old(self).inner.shape
                &&& final(shapes).shapes@ == old(shapes).shapes@
                &&& final(self).inner.values@.len() == old(self).inner.values@.len()
            },
            !spec_has_key(old(self).inner, *old(shapes), *old(interner), key@) ==> final(shapes).names_of(final(self).inner.shape as int) == old(shapes).names_of(
                old(self).inner.shape as int,
            ).push(final(interner).contents().index_of(key@) as usize),
            spec_get(final(self).inner, *final(shapes), *final(interner), key@) == value,
            forall|k2: Seq<char>|
                k2 != key@ ==> spec_get(final(self).inner, *final(shapes), *final(interner), k2)
                    == spec_get(old(self).inner, *old(shapes), *old(interner), k2),
            forall|hl: int|
                #![trigger final(self).inner.values_in_bounds(hl)]
                old(self).inner.values_in_bounds(hl) && (value matches JSValue::Object(o) ==> o
                    < hl) ==> final(self).inner.values_in_bounds(hl),
    {
        let ghost pre_self: JSObject = *self;
        let ghost pre_shapes: ShapeTable = *shapes;
        let ghost c_old: Seq<Seq<char>> = interner.contents();
        let ks: InternedString = interner.intern(key);
        let n: usize = ks.id;
        let ghost c_new: Seq<Seq<char>> = interner.contents();
        let from: usize = self.inner.shape;
        let ghost names: Seq<usize> = shapes.names_of(from as int);
        proof {
            assert(shapes.record_wf(from as int));
            assert(c_new[n as int] == key@);
            // every existing name keeps its old resolution, and none of
            // them resolves to a fresh identity
            assert forall|k: int| 0 <= k < names.len() implies names[k] < c_old.len()
                && c_new[names[k] as int] == c_old[names[k] as int] by {}
        }
        let idx_opt: Option<usize> = shapes.shapes[from].get_property_index(n);
        match idx_opt {
            Some(idx) => {
                proof {
                    // the key's content was already interned: a fresh
                    // identity cannot occur among the shape's names
                    assert(names[idx as int] == n);
                    assert(old(interner).has_content(key@)) by {
                        if n < c_old.len() {
                            assert(c_old[n as int] == c_new[n as int]);
                        } else {
                            assert(names[idx as int] < c_old.len());
                        }
                    }
                    assert(c_new == c_old);
                    lemma_key_slot_by_id(names, c_old, key@, n);
                    match key_slot(names, c_old, key@) {
                        Some(k0) => {
                            assert(shapes.shapes@[from as int].names_distinct());
                            if k0 < idx as int {
                                assert(names[k0] != names[idx as int]);
                            } else if (idx as int) < k0 {
                                assert(names[idx as int] != names[k0]);
                            }
                            assert(k0 == idx as int);
                        },
                        None => {
                            assert(names[idx as int] != n);
                        },
                    }
                    assert(spec_has_key(old(self).inner, *old(shapes), *old(interner), key@));
                }
                if idx < self.inner.values.len() {
                    self.inner.values[idx] = value;
                } else {
                    // defensive path; under the invariants the slot always
                    // lies inside the value vector
                    while self.inner.values.len() <= idx
                        invariant
                            self.inner.values@.len() <= idx + 1,
                        decreases idx + 1 - self.inner.values@.len(),
                    {
                        self.inner.values.push(JSValue::Undefined);
                    }
                    self.inner.values[idx] = value;
                }
                proof {
                    let post = self.inner;
                    let pre = pre_self.inner;
                    assert(post.values@ == pre.values@.update(idx as int, value));
                    assert(spec_get(post, *shapes, *interner, key@) == value);
                    assert forall|k2: Seq<char>| k2 != key@ implies spec_get(
                        post,
                        *shapes,
                        *interner,
                        k2,
                    ) == spec_get(pre, pre_shapes, StringInterner { strings: old(interner).strings },
                        k2) by {
                        lemma_key_slot_resolves(names, c_old, k2);
                        match key_slot(names, c_old, k2) {
                            Some(k) => {
                                assert(c_old[names[k] as int] == k2);
                                assert(k != idx as int);
                            },
                            None => {},
                        }
                    }
                    assert forall|hl: int|
                        pre.values_in_bounds(hl) && (value matches JSValue::Object(o) ==> o < hl)
                            implies #[trigger] post.values_in_bounds(hl) by {
                        assert forall|k: int|
                            0 <= k < post.values@.len() implies (#[trigger] post.values@[k]
                                matches JSValue::Object(o) ==> o < hl) by {
                            if k != idx as int {
                                if k < pre.values@.len() {
                                    assert(post.values@[k] == pre.values@[k]);
                                } else {
                                    assert(post.values@[k] is Undefined);
                                }
                            }
                        }
                    }
                }
            },
            None => {
                proof {
                    assert forall|k: int| 0 <= k < names.len() implies names[k] < c_old.len()
                        && c_old[names[k] as int] != key@ by {
                        if c_old[names[k] as int] == key@ {
                            assert(old(interner).has_content(key@));
                            assert(c_new == c_old);
                            if names[k] != n {
                                if names[k] < n {
                                    assert(c_old[names[k] as int] != c_old[n as int]);
                                } else {
                                    assert(c_old[n as int] != c_old[names[k] as int]);
                                }
                            }
                            assert(names.contains(names[k]));
                        }
                    }
                    lemma_key_slot_none(names, c_old, key@);
                    assert(!spec_has_key(old(self).inner, *old(shapes), *old(interner), key@));
                    assert(!names.contains(n)) by {
                        if names.contains(n) {
                            let w = choose|w: int| 0 <= w < names.len() && names[w] == n;
                            if n < c_old.len() {
                                assert(c_old[n as int] == c_new[n as int]);
                            }
                        }
                    }
                }
                let idx: usize = shapes.shapes[from].property_count();
                let to: usize = shapes.transition_to(from, n);
                let ghost shapes_mid: ShapeTable = *shapes;
                shapes.shapes[from].remove_reference();
                shapes.shapes[to].add_reference();
                proof {
                    crate::shape::lemma_wf_ignores_ref_counts(shapes_mid, *shapes);
                    assert(shapes.names_of(to as int) == names.push(n));
                }
                let ghost pre_len: int = self.inner.values@.len() as int;
                while self.inner.values.len() <= idx
                    invariant
                        pre_len <= self.inner.values@.len() <= (if pre_len <= idx as int {
                            idx + 1
                        } else {
                            pre_len
                        }),
                        forall|k: int|
                            0 <= k < pre_len ==> self.inner.values@[k] == pre_self.inner.values@[k],
                        forall|k: int|
                            pre_len <= k < self.inner.values@.len()
                                ==> self.inner.values@[k] is Undefined,
                        self.inner.obj_type == pre_self.inner.obj_type,
                        self.inner.shape == pre_self.inner.shape,
                        self.inner.marked == pre_self.inner.marked,
                        self.inner.finalizer == pre_self.inner.finalizer,
                        self.external_refs == pre_self.external_refs,
                        self.in_generation == pre_self.in_generation,
                    decreases idx + 1 - self.inner.values@.len(),
                {
                    self.inner.values.push(JSValue::Undefined);
                }
                self.inner.values[idx] = value;
                self.inner.shape = to;
                proof {
                    let post = self.inner;
                    let pre = pre_self.inner;
                    let names2 = shapes.names_of(to as int);
                    assert(interner.contents().index_of(key@) == n as int) by {
                        assert(interner.contents()[n as int] == key@);
                        assert(interner.wf());
                        let w = interner.contents().index_of(key@);
                        if w != n as int {
                            if w < n as int {
                                assert(interner.contents()[w] != interner.contents()[n as int]);
                            } else {
                                assert(interner.contents()[n as int] != interner.contents()[w]);
                            }
                        }
                    }
                    // the fresh slot holds the value
                    lemma_key_slot_push_hit(names, c_new, key@, n);
                    assert(spec_get(post, *shapes, *interner, key@) == value);
                    // well-formedness of the grown object
                    assert(post.wf(*shapes)) by {
                        assert(names2.len() == idx + 1);
                        assert(post.values@.len() >= idx + 1);
                        assert forall|k: int|
                            names2.len() <= k < post.values@.len() implies post.values@[k]
                                is Undefined by {
                            assert(post.values@[k] == pre.values@[k]
                                || post.values@[k] is Undefined);
                        }
                    }
                    // every other key reads as before
                    assert forall|k2: Seq<char>| k2 != key@ implies spec_get(
                        post,
                        *shapes,
                        *interner,
                        k2,
                    ) == spec_get(pre, pre_shapes, StringInterner { strings: old(interner).strings },
                        k2) by {
                        lemma_key_slot_append(names, c_new, k2, n);
                        lemma_key_slot_extend(names, c_old, c_new, k2);
                        lemma_key_slot_resolves(names, c_old, k2);
                        match key_slot(names, c_old, k2) {
                            Some(k) => {
                                assert(0 <= k < names.len());
                                assert(post.values@[k] == pre.values@[k]);
                            },
                            None => {},
                        }
                    }
                    assert forall|hl: int|
                        pre.values_in_bounds(hl) && (value matches JSValue::Object(o) ==> o < hl)
                            implies #[trigger] post.values_in_bounds(hl) by {
                        assert forall|k: int|
                            0 <= k < post.values@.len() implies (#[trigger] post.values@[k]
                                matches JSValue::Object(o) ==> o < hl) by {
                            if k != idx as int {
                                if k < pre.values@.len() {
                                    assert(post.values@[k] == pre.values@[k]);
                                } else {
                                    assert(post.values@[k] is Undefined);
                                }
                            }
                        }
                    }
                }
            },
        }
    }

    /// Clear this object's mark bit.
    pub fn unmark(&mut self)
        ensures
            final(self).inner.marked == false,
            final(self).inner.obj_type == old(self).inner.obj_type,
            final(self).inner.shape == old(self).inner.shape,
            final(self).inner.values == old(self).inner.values,
            final(self).inner.finalizer == old(self).inner.finalizer,
            final(self).external_refs == old(self).external_refs,
            final(self).in_generation == old(self).in_generation,
    {
        self.inner.marked = false;
    }

    /// Whether this object's mark bit is set.
    pub fn is_marked(&self) -> (r: bool)
        ensures
            r == self.inner.marked,
    {
        self.inner.marked
    }

    /// Install a finalizer token; a later call replaces the earlier one.
    /// The token is what the host boundary hands back when the object is
    /// destroyed, standing in for the host's function pointer.
    pub fn set_finalizer(&mut self, token: u64)
        ensures
            final(self).inner.finalizer == Some(token),
            final(self).inner.obj_type == old(self).inner.obj_type,
            final(self).inner.shape == old(self).inner.shape,
            final(self).inner.values == old(self).inner.values,
            final(self).inner.marked == old(self).inner.marked,
            final(self).external_refs == old(self).external_refs,
            final(self).in_generation == old(self).in_generation,
    {
        self.inner.finalizer = Some(token);
    }

    /// The object's property names, in insertion order.
    pub fn property_names(&self, shapes: &ShapeTable, interner: &StringInterner) -> (r: Vec<
        String,
    >)
        requires
            self.inner.shape < shapes.shapes@.len(),
            self.inner.names_valid(*shapes, *interner),
        ensures
            r@.len() == shapes.names_of(self.inner.shape as int).len(),
            forall|k: int|
                0 <= k < r@.len() ==> r@[k]@ == interner.contents()[shapes.names_of(
                    self.inner.shape as int,
                )[k] as int],
    {
        proof {
            assert forall|k: int|
                0 <= k < shapes.shapes@[self.inner.shape as int].names@.len() implies shapes.shapes@[
                self.inner.shape as int
            ].names@[k] < interner.contents().len() by {
                assert(shapes.names_of(self.inner.shape as int)[k] < interner.contents().len());
            }
        }
        shapes.shapes[self.inner.shape].property_names(interner)
    }
}

/// An opaque handle for a script object: the index the object holds in
/// its collector's heap.
#[derive(Clone, Copy, Debug, PartialEq, Eq, Structural)]
pub struct JSObjectHandle {
    pub id: usize,
}

} // verus!
