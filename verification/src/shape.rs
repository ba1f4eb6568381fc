//! Shape-based (hidden-class) property layout. A shape maps interned
//! property names to dense slot indices; adding a property transitions to
//! a successor shape, and transitions are cached so that objects that add
//! the same names in the same order share the same shape.
//!
//! Shapes live in a [`ShapeTable`] arena; a shape's identity is its index
//! there. The table's well-formedness pins the key structural facts: each
//! non-root shape extends its parent by exactly one name, every child is
//! cached in its parent, and no two shapes carry the same name sequence —
//! which is what makes shape identity a function of the insertion order.

use vstd::prelude::*;
use crate::string_interner::StringInterner;

verus! {

/// An immutable descriptor of an object's property layout.
///
/// `names` holds the interned-name identities in insertion order; the slot
/// index of a property is its position in `names`. `ref_count` is advisory
/// only (statistics), it does not govern lifetime.
pub struct PropertyShape {
    pub id: usize,
    pub names: Vec<usize>,
    pub parent: Option<usize>,
    pub added_property: Option<usize>,
    pub transitions: Vec<(usize, usize)>,
    pub ref_count: usize,
}

impl PropertyShape {
    /// No property name occurs twice in this shape.
    pub open spec fn names_distinct(self) -> bool {
        forall|a: int, b: int|
            0 <= a < b < self.names@.len() ==> self.names@[a] != self.names@[b]
    }

    /// Every name of this shape is an identity the given interner handed out.
    pub open spec fn names_valid(self, interner: StringInterner) -> bool {
        forall|k: int|
            0 <= k < self.names@.len() ==> self.names@[k] < interner.contents().len()
    }

    /// The root shape record: no properties, no parent.
    pub fn new_empty() -> (r: PropertyShape)
        ensures
            r.id == 0,
            r.names@.len() == 0,
            r.parent is None,
            r.added_property is None,
            r.transitions@.len() == 0,
            r.ref_count == 0,
    {
        PropertyShape {
            id: 0,
            names: Vec::new(),
            parent: None,
            added_property: None,
            transitions: Vec::new(),
            ref_count: 0,
        }
    }

    /// The slot index of `name_id`, if the shape holds that property.
    pub fn get_property_index(&self, name_id: usize) -> (r: Option<usize>)
        ensures
            match r {
                Some(k) => k < self.names@.len() && self.names@[k as int] == name_id,
                None => !self.names@.contains(name_id),
            },
    {
        let n: usize = self.names.len();
        let mut i: usize = 0;
        while i < n
            invariant
                n == self.names@.len(),
                i <= n,
                forall|j: int| 0 <= j < i ==> self.names@[j] != name_id,
            decreases n - i,
        {
            if self.names[i] == name_id {
                return Some(i);
            }
            i = i + 1;
        }
        None
    }

    /// The number of properties in this shape.
    pub fn property_count(&self) -> (n: usize)
        ensures
            n == self.names@.len(),
    {
        self.names.len()
    }

    /// Note one more object adopting this shape (statistics only).
    pub fn add_reference(&mut self)
        ensures
            final(self).ref_count == if old(self).ref_count < usize::MAX {
                old(self).ref_count + 1
            } else {
                usize::MAX as int
            },
            final(self).id == old(self).id,
            final(self).names == old(self).names,
            final(self).parent == old(self).parent,
            final(self).added_property == old(self).added_property,
            final(self).transitions == old(self).transitions,
    {
        self.ref_count = self.ref_count.saturating_add(1);
    }

    /// Note one fewer object using this shape (statistics only).
    pub fn remove_reference(&mut self)
        ensures
            final(self).ref_count == if old(self).ref_count > 0 {
                old(self).ref_count - 1
            } else {
                0
            },
            final(self).id == old(self).id,
            final(self).names == old(self).names,
            final(self).parent == old(self).parent,
            final(self).added_property == old(self).added_property,
            final(self).transitions == old(self).transitions,
    {
        self.ref_count = self.ref_count.saturating_sub(1);
    }

    /// The property names of this shape, in insertion order, resolved
    /// through the interner that handed their identities out.
    pub fn property_names(&self, interner: &StringInterner) -> (r: Vec<String>)
        requires
            self.names_valid(*interner),
        ensures
            r@.len() == self.names@.len(),
            forall|k: int|
                0 <= k < r@.len() ==> r@[k]@ == interner.contents()[self.names@[k] as int],
    {
        let n: usize = self.names.len();
        let mut out: Vec<String> = Vec::new();
        let mut i: usize = 0;
        while i < n
            invariant
                n == self.names@.len(),
                self.names_valid(*interner),
                i <= n,
                out@.len() == i,
                forall|k: int|
                    0 <= k < i ==> out@[k]@ == interner.contents()[self.names@[k] as int],
            decreases n - i,
        {
            let id: usize = self.names[i];
            out.push(interner.strings[id].clone());
            i = i + 1;
        }
        out
    }

    /// The property map as (interned name, slot index) pairs, slot order.
    pub fn get_property_map(&self) -> (r: Vec<(usize, usize)>)
        ensures
            r@.len() == self.names@.len(),
            forall|k: int| 0 <= k < r@.len() ==> r@[k] == (self.names@[k], k as usize),
    {
        let n: usize = self.names.len();
        let mut out: Vec<(usize, usize)> = Vec::new();
        let mut i: usize = 0;
        while i < n
            invariant
                n == self.names@.len(),
                i <= n,
                out@.len() == i,
                forall|k: int| 0 <= k < i ==> out@[k] == (self.names@[k], k as usize),
            decreases n - i,
        {
            out.push((self.names[i], i));
            i = i + 1;
        }
        out
    }
}

/// The arena of shapes. Index 0 is always the empty root shape.
///
/// Shapes are retained for the table's lifetime: the transition cache
/// holds its successors strongly, so a shape no object uses any longer
/// still answers later transitions. The advisory `ref_count` keeps
/// tracking how many objects use each shape; only metadata storage, not
/// observable behaviour, differs from a cache of weak references.
pub struct ShapeTable {
    pub shapes: Vec<PropertyShape>,
}

impl ShapeTable {
    /// The name sequence of shape `i`.
    pub open spec fn names_of(self, i: int) -> Seq<usize> {
        self.shapes@[i].names@
    }

    /// `i` indexes a shape of this table.
    pub open spec fn valid_shape(self, i: int) -> bool {
        0 <= i < self.shapes@.len()
    }

    /// The transition cache of `p` maps `n` to `t`.
    pub open spec fn cached(self, p: int, n: usize, t: int) -> bool {
        exists|k: int|
            0 <= k < self.shapes@[p].transitions@.len() && self.shapes@[p].transitions@[k] == (
            n,
            t as usize,
            )
    }

    /// Local well-formedness of the record at `i`: its id is its index,
    /// its names are distinct, and (except for the root) it extends its
    /// parent by exactly its added property and is cached there.
    pub open spec fn record_wf(self, i: int) -> bool {
        let s = self.shapes@[i];
        &&& s.id == i
        &&& s.names_distinct()
        &&& if i == 0 {
            &&& s.names@.len() == 0
            &&& s.parent is None
            &&& s.added_property is None
        } else {
            &&& s.parent matches Some(p) && 0 <= p < i && {
                &&& s.added_property matches Some(n)
                &&& !self.names_of(p as int).contains(n)
                &&& s.names@ == self.names_of(p as int).push(n)
                &&& self.cached(p as int, n, i)
            }
        }
    }

    /// Well-formedness of the transition cache of shape `i`: every entry
    /// points at a child that extends `i` by the entry's name, and no name
    /// is cached twice.
    pub open spec fn transitions_wf(self, i: int) -> bool {
        let tr = self.shapes@[i].transitions@;
        &&& forall|k: int|
            0 <= k < tr.len() ==> {
                &&& 1 <= #[trigger] tr[k].1 < self.shapes@.len()
                &&& self.shapes@[tr[k].1 as int].parent == Some(self.shapes@[i].id)
                &&& self.shapes@[tr[k].1 as int].added_property == Some(tr[k].0)
                &&& !self.names_of(i).contains(tr[k].0)
                &&& self.names_of(tr[k].1 as int) == self.names_of(i).push(tr[k].0)
            }
        &&& forall|a: int, b: int| 0 <= a < b < tr.len() ==> tr[a].0 != tr[b].0
    }

    /// No two shapes carry the same name sequence. Together with the rest
    /// of well-formedness this makes a shape's identity a function of the
    /// property-insertion order alone.
    pub open spec fn injective(self) -> bool {
        forall|i: int, j: int|
            0 <= i < j < self.shapes@.len() ==> self.names_of(i) != self.names_of(j)
    }

    /// Table well-formedness.
    pub open spec fn wf(self) -> bool {
        &&& self.shapes@.len() >= 1
        &&& forall|i: int| self.valid_shape(i) ==> #[trigger] self.record_wf(i)
        &&& forall|i: int| self.valid_shape(i) ==> #[trigger] self.transitions_wf(i)
        &&& self.injective()
    }

    /// Every shape's names are identities the given interner handed out.
    pub open spec fn names_valid(self, interner: StringInterner) -> bool {
        forall|i: int|
            self.valid_shape(i) ==> #[trigger] self.shapes@[i].names_valid(interner)
    }

    /// A fresh table holding only the empty root shape.
    pub fn new() -> (r: Self)
        ensures
            r.wf(),
            r.shapes@.len() == 1,
            r.names_of(0).len() == 0,
            forall|itn: StringInterner| r.names_valid(itn),
    {
        let mut shapes: Vec<PropertyShape> = Vec::new();
        shapes.push(PropertyShape::new_empty());
        let r = ShapeTable { shapes };
        proof {
            assert forall|i: int| r.valid_shape(i) implies #[trigger] r.record_wf(i) by {}
            assert forall|i: int| r.valid_shape(i) implies #[trigger] r.transitions_wf(i) by {}
        }
        r
    }

    /// The successor of shape `from` under property `name_id`.
    ///
    /// If `from` already holds the property, `from` itself is returned and
    /// the table is untouched. Otherwise the cached successor is returned
    /// if one exists, or a new shape extending `from` by `name_id` is
    /// created and cached. Either way the shape returned carries exactly
    /// `from`'s names extended by `name_id`.
    pub fn transition_to(&mut self, from: usize, name_id: usize) -> (to: usize)
        requires
            old(self).wf(),
            old(self).valid_shape(from as int),
        ensures
            final(self).wf(),
            final(self).valid_shape(to as int),
            old(self).shapes@.len() <= final(self).shapes@.len() <= old(self).shapes@.len() + 1,
            forall|i: int|
                old(self).valid_shape(i) ==> final(self).names_of(i) == old(self).names_of(i),
            forall|i: int|
                old(self).valid_shape(i) ==> {
                    &&& final(self).shapes@[i].parent == old(self).shapes@[i].parent
                    &&& final(self).shapes@[i].added_property == old(self).shapes@[
                        i
                    ].added_property
                    &&& final(self).shapes@[i].ref_count == old(self).shapes@[i].ref_count
                },
            forall|i: int|
                final(self).valid_shape(i) && !old(self).valid_shape(i) ==> i == to,
            old(self).names_of(from as int).contains(name_id) ==> to == from && *final(self)
                == *old(self),
            !old(self).names_of(from as int).contains(name_id) ==> final(self).names_of(to as int)
                == old(self).names_of(from as int).push(name_id),
    {
        match self.shapes[from].get_property_index(name_id) {
            Some(_) => {
                proof {
                    assert(self.names_of(from as int).contains(name_id));
                }
                return from;
            },
            None => {},
        }
        let tcount: usize = self.shapes[from].transitions.len();
        let mut k: usize = 0;
        while k < tcount
            invariant
                *self == *old(self),
                self.wf(),
                self.valid_shape(from as int),
                tcount == self.shapes@[from as int].transitions@.len(),
                k <= tcount,
                !self.names_of(from as int).contains(name_id),
                forall|j: int|
                    0 <= j < k ==> self.shapes@[from as int].transitions@[j].0 != name_id,
            decreases tcount - k,
        {
            let entry: (usize, usize) = self.shapes[from].transitions[k];
            if entry.0 == name_id {
                proof {
                    assert(self.transitions_wf(from as int));
                    assert(self.names_of(entry.1 as int) == self.names_of(from as int).push(
                        name_id,
                    ));
                }
                return entry.1;
            }
            k = k + 1;
        }
        let new_id: usize = self.shapes.len();
        let cnt: usize = self.shapes[from].names.len();
        let mut new_names: Vec<usize> = Vec::new();
        let mut j: usize = 0;
        while j < cnt
            invariant
                *self == *old(self),
                self.valid_shape(from as int),
                cnt == self.names_of(from as int).len(),
                j <= cnt,
                new_names@ == self.names_of(from as int).take(j as int),
            decreases cnt - j,
        {
            new_names.push(self.shapes[from].names[j]);
            proof {
                assert(new_names@ =~= self.names_of(from as int).take(j + 1));
            }
            j = j + 1;
        }
        proof {
            assert(new_names@ =~= self.names_of(from as int));
        }
        new_names.push(name_id);
        let rec = PropertyShape {
            id: new_id,
            names: new_names,
            parent: Some(from),
            added_property: Some(name_id),
            transitions: Vec::new(),
            ref_count: 0,
        };
        self.shapes.push(rec);
        let f = &mut self.shapes[from];
        f.transitions.push((name_id, new_id));
        proof {
            self.lemma_transition_wf_after_insert(*old(self), from, name_id);
        }
        new_id
    }

    /// The new-shape case of `transition_to` preserves well-formedness.
    ///
    /// `pre` is the table before the insertion; `self` extends it by one
    /// record (a child of `from` adding `name_id`) and the matching cache
    /// entry on `from`.
    proof fn lemma_transition_wf_after_insert(&self, pre: ShapeTable, from: usize, name_id: usize)
        requires
            pre.wf(),
            pre.valid_shape(from as int),
            !pre.names_of(from as int).contains(name_id),
            forall|j: int|
                0 <= j < pre.shapes@[from as int].transitions@.len() ==> pre.shapes@[
                    from as int
                ].transitions@[j].0 != name_id,
            self.shapes@.len() == pre.shapes@.len() + 1,
            forall|i: int|
                0 <= i < pre.shapes@.len() && i != from ==> self.shapes@[i] == pre.shapes@[i],
            ({
                let f_new = self.shapes@[from as int];
                let f_old = pre.shapes@[from as int];
                &&& f_new.id == f_old.id
                &&& f_new.names == f_old.names
                &&& f_new.parent == f_old.parent
                &&& f_new.added_property == f_old.added_property
                &&& f_new.ref_count == f_old.ref_count
                &&& f_new.transitions@ == f_old.transitions@.push(
                    (name_id, pre.shapes@.len() as usize),
                )
            }),
            ({
                let rec = self.shapes@[pre.shapes@.len() as int];
                &&& rec.id == pre.shapes@.len()
                &&& rec.names@ == pre.names_of(from as int).push(name_id)
                &&& rec.parent == Some(from)
                &&& rec.added_property == Some(name_id)
                &&& rec.transitions@.len() == 0
            }),
        ensures
            self.wf(),
            forall|i: int|
                pre.valid_shape(i) ==> self.names_of(i) == pre.names_of(i),
    {
        let n = pre.shapes@.len() as int;
        assert forall|i: int| pre.valid_shape(i) implies self.names_of(i) == pre.names_of(i) by {
            if i == from {
            }
        }
        // names of the fresh record are distinct
        assert(self.shapes@[n].names_distinct()) by {
            let nm = self.names_of(n);
            assert(pre.record_wf(from as int));
            assert forall|a: int, b: int| 0 <= a < b < nm.len() implies nm[a] != nm[b] by {
                if b == nm.len() - 1 {
                    assert(nm[a] == pre.names_of(from as int)[a]);
                    assert(!pre.names_of(from as int).contains(name_id));
                }
            }
        }
        // record_wf everywhere
        assert forall|i: int| self.valid_shape(i) implies #[trigger] self.record_wf(i) by {
            if i < n {
                assert(pre.record_wf(i));
                if i != 0 {
                    let s = pre.shapes@[i];
                    let p = s.parent->0 as int;
                    let nn = s.added_property->0;
                    assert(pre.cached(p, nn, i));
                    let k = choose|k: int|
                        0 <= k < pre.shapes@[p].transitions@.len() && pre.shapes@[p].transitions@[k]
                            == (nn, i as usize);
                    assert(self.shapes@[p].transitions@[k] == (nn, i as usize));
                    assert(self.cached(p, nn, i));
                }
            } else {
                assert(i == n);
                assert(pre.record_wf(from as int));
                let tr = self.shapes@[from as int].transitions@;
                assert(tr[tr.len() - 1] == (name_id, n as usize));
                assert(self.cached(from as int, name_id, n));
            }
        }
        // transitions_wf everywhere
        assert forall|i: int| self.valid_shape(i) implies #[trigger] self.transitions_wf(i) by {
            if i < n {
                assert(pre.transitions_wf(i));
                let tr_old = pre.shapes@[i].transitions@;
                let tr = self.shapes@[i].transitions@;
                assert forall|k: int|
                    0 <= k < tr.len() implies {
                    &&& 1 <= #[trigger] tr[k].1 < self.shapes@.len()
                    &&& self.shapes@[tr[k].1 as int].parent == Some(self.shapes@[i].id)
                    &&& self.shapes@[tr[k].1 as int].added_property == Some(tr[k].0)
                    &&& !self.names_of(i).contains(tr[k].0)
                    &&& self.names_of(tr[k].1 as int) == self.names_of(i).push(tr[k].0)
                } by {
                    if i == from && k == tr.len() - 1 {
                        assert(tr[k] == (name_id, n as usize));
                        assert(self.shapes@[n].parent == Some(from));
                        assert(pre.record_wf(from as int));
                        assert(self.shapes@[from as int].id == from);
                    } else {
                        assert(tr[k] == tr_old[k]);
                        assert(1 <= tr_old[k].1 < pre.shapes@.len());
                        assert(tr_old[k].1 != n);
                    }
                }
                assert forall|a: int, b: int| 0 <= a < b < tr.len() implies tr[a].0 != tr[b].0 by {
                    if i == from && b == tr.len() - 1 {
                        assert(tr[a].0 == tr_old[a].0);
                    }
                }
            } else {
                assert(self.shapes@[i].transitions@.len() == 0);
            }
        }
        // injectivity: no old shape carries the new name sequence
        assert forall|i: int, j: int|
            0 <= i < j < self.shapes@.len() implies self.names_of(i) != self.names_of(j) by {
            if j < n {
                assert(pre.injective());
            } else {
                assert(j == n);
                if self.names_of(i) == self.names_of(n) {
                    assert(pre.names_of(i) == pre.names_of(from as int).push(name_id));
                    assert(pre.names_of(i).len() > 0);
                    assert(i != 0) by {
                        assert(pre.record_wf(0));
                    }
                    assert(pre.record_wf(i));
                    let s = pre.shapes@[i];
                    let p = s.parent->0 as int;
                    let m = s.added_property->0;
                    assert(pre.names_of(i) == pre.names_of(p).push(m));
                    lemma_push_eq(pre.names_of(p), pre.names_of(from as int), m, name_id);
                    assert(p == from) by {
                        if p != from {
                            assert(pre.injective());
                            if p < from {
                                assert(pre.names_of(p) != pre.names_of(from as int));
                            } else {
                                assert(pre.names_of(from as int) != pre.names_of(p));
                            }
                        }
                    }
                    assert(pre.cached(from as int, name_id, i));
                    let k = choose|k: int|
                        0 <= k < pre.shapes@[from as int].transitions@.len() && pre.shapes@[
                            from as int
                        ].transitions@[k] == (name_id, i as usize);
                    assert(pre.shapes@[from as int].transitions@[k].0 == name_id);
                    assert(false);
                }
            }
        }
    }
}

/// Table well-formedness does not depend on the advisory reference
/// counts: a table equal to a well-formed one in everything but
/// `ref_count` is well-formed too.
pub proof fn lemma_wf_ignores_ref_counts(a: ShapeTable, b: ShapeTable)
    requires
        a.wf(),
        b.shapes@.len() == a.shapes@.len(),
        forall|i: int|
            #[trigger] a.valid_shape(i) ==> {
                &&& b.shapes@[i].id == a.shapes@[i].id
                &&& b.shapes@[i].names == a.shapes@[i].names
                &&& b.shapes@[i].parent == a.shapes@[i].parent
                &&& b.shapes@[i].added_property == a.shapes@[i].added_property
                &&& b.shapes@[i].transitions == a.shapes@[i].transitions
            },
    ensures
        b.wf(),
        forall|i: int| a.valid_shape(i) ==> b.names_of(i) == a.names_of(i),
{
    assert forall|i: int| b.valid_shape(i) implies #[trigger] b.record_wf(i) by {
        assert(a.valid_shape(i));
        assert(a.record_wf(i));
        assert(b.shapes@[i].names_distinct()) by {
            assert(b.shapes@[i].names@ == a.shapes@[i].names@);
        }
        if i != 0 {
            let p = a.shapes@[i].parent->0 as int;
            let n = a.shapes@[i].added_property->0;
            assert(a.cached(p, n, i));
            let k = choose|k: int|
                0 <= k < a.shapes@[p].transitions@.len() && a.shapes@[p].transitions@[k] == (
                n,
                i as usize,
                );
            assert(a.valid_shape(p));
            assert(b.shapes@[p].transitions@ == a.shapes@[p].transitions@);
            assert(b.cached(p, n, i));
        }
    }
    assert forall|i: int| b.valid_shape(i) implies #[trigger] b.transitions_wf(i) by {
        assert(a.valid_shape(i));
        assert(a.transitions_wf(i));
        let tr = b.shapes@[i].transitions@;
        assert(tr == a.shapes@[i].transitions@);
        assert forall|k: int|
            0 <= k < tr.len() implies {
            &&& 1 <= #[trigger] tr[k].1 < b.shapes@.len()
            &&& b.shapes@[tr[k].1 as int].parent == Some(b.shapes@[i].id)
            &&& b.shapes@[tr[k].1 as int].added_property == Some(tr[k].0)
            &&& !b.names_of(i).contains(tr[k].0)
            &&& b.names_of(tr[k].1 as int) == b.names_of(i).push(tr[k].0)
        } by {
            assert(1 <= tr[k].1 < a.shapes@.len());
            assert(a.valid_shape(tr[k].1 as int));
            assert(b.names_of(i) == a.names_of(i));
            assert(b.names_of(tr[k].1 as int) == a.names_of(tr[k].1 as int));
            assert(b.shapes@[i].id == a.shapes@[i].id);
        }
    }
    assert forall|i: int, j: int|
        0 <= i < j < b.shapes@.len() implies b.names_of(i) != b.names_of(j) by {
        assert(a.names_of(i) != a.names_of(j));
        assert(a.valid_shape(i) && a.valid_shape(j));
        assert(b.names_of(i) == a.names_of(i));
        assert(b.names_of(j) == a.names_of(j));
    }
}

/// Two pushes are equal exactly when their bases and pushed elements are.
proof fn lemma_push_eq(s1: Seq<usize>, s2: Seq<usize>, x: usize, y: usize)
    requires
        s1.push(x) == s2.push(y),
    ensures
        s1 == s2,
        x == y,
{
    assert(s1.push(x).len() == s2.push(y).len());
    assert(s1.push(x).len() == s1.len() + 1);
    assert(s2.push(y).len() == s2.len() + 1);
    assert(s1.len() == s2.len());
    assert(x == s1.push(x)[s1.len() as int]);
    assert(y == s2.push(y)[s2.len() as int]);
    assert(s1 =~= s2) by {
        assert forall|i: int| 0 <= i < s1.len() implies s1[i] == s2[i] by {
            assert(s1[i] == s1.push(x)[i]);
            assert(s2[i] == s2.push(y)[i]);
        }
    }
}

/// The name sequence reached by inserting `n` into a shape with names
/// `names`: unchanged if present, appended otherwise.
pub open spec fn add_name(names: Seq<usize>, n: usize) -> Seq<usize> {
    if names.contains(n) {
        names
    } else {
        names.push(n)
    }
}

/// The name sequence reached from the empty root shape by inserting the
/// names of `p` in order.
pub open spec fn names_after(p: Seq<usize>) -> Seq<usize>
    decreases p.len(),
{
    if p.len() == 0 {
        Seq::empty()
    } else {
        add_name(names_after(p.drop_last()), p.last())
    }
}

/// Shape convergence: in a well-formed table, two shapes with the same
/// name sequence are the same shape. Hence two objects that insert the
/// same property names in the same order end on the identity-equal shape.
pub proof fn lemma_shape_convergence(t: ShapeTable, a: usize, b: usize)
    requires
        t.wf(),
        t.valid_shape(a as int),
        t.valid_shape(b as int),
        t.names_of(a as int) == t.names_of(b as int),
    ensures
        a == b,
{
    if a < b {
        assert(t.names_of(a as int) != t.names_of(b as int));
    } else if b < a {
        assert(t.names_of(b as int) != t.names_of(a as int));
    }
}

/// Shape divergence: two shapes whose name sequences differ are different
/// shapes. Insertion orders that differ once duplicate re-assignments are
/// stripped yield different name sequences, hence different shapes.
pub proof fn lemma_shape_divergence(t: ShapeTable, a: usize, b: usize)
    requires
        t.wf(),
        t.valid_shape(a as int),
        t.valid_shape(b as int),
        t.names_of(a as int) != t.names_of(b as int),
    ensures
        a != b,
{
}

/// For distinct names, inserting them in order from the empty root yields
/// exactly that sequence of names.
pub proof fn lemma_names_after_distinct(p: Seq<usize>)
    requires
        forall|a: int, b: int| 0 <= a < b < p.len() ==> p[a] != p[b],
    ensures
        names_after(p) == p,
    decreases p.len(),
{
    if p.len() > 0 {
        let q = p.drop_last();
        lemma_names_after_distinct(q);
        assert(!q.contains(p.last())) by {
            if q.contains(p.last()) {
                let i = choose|i: int| 0 <= i < q.len() && q[i] == p.last();
                assert(p[i] == p[p.len() - 1]);
            }
        }
        assert(names_after(p) == q.push(p.last()));
        assert(q.push(p.last()) =~= p);
    }
}

} // verus!
