//! Process-wide string interning with identity semantics: every distinct
//! content is stored once, and the index it holds in the interner is its
//! identity. Two handles from the same interner are identity-equal exactly
//! when their contents are byte-equal.

use vstd::prelude::*;
use vstd::utf8::encode_utf8;

verus! {

/// Bytes charged per interner entry, over the key bytes themselves, when
/// estimating memory use; stands in for the shared-handle overhead of each
/// map entry.
pub const INTERN_ENTRY_OVERHEAD: usize = 8;

/// Saturating addition on `usize`, used by the memory estimates.
pub open spec fn sat_add(a: usize, b: usize) -> usize {
    if a + b > usize::MAX {
        usize::MAX
    } else {
        (a + b) as usize
    }
}

/// The number of bytes of the UTF-8 encoding of `s`, folded into `usize`
/// exactly as the standard library's byte length reports it.
pub open spec fn entry_bytes(s: Seq<char>) -> usize {
    encode_utf8(s).len() as usize
}

/// Estimated memory held by an interner with the given contents: for each
/// entry, its key bytes plus [`INTERN_ENTRY_OVERHEAD`], accumulated with
/// saturating addition.
pub open spec fn interner_memory(tbl: Seq<Seq<char>>) -> usize
    decreases tbl.len(),
{
    if tbl.len() == 0 {
        0
    } else {
        sat_add(
            sat_add(interner_memory(tbl.drop_last()), entry_bytes(tbl.last())),
            INTERN_ENTRY_OVERHEAD,
        )
    }
}

/// A canonical handle for an interned string. `id` is the identity: the
/// index the content holds in the interner that handed the handle out.
/// `text` carries the content itself, standing in for the shared storage
/// the identity points at.
#[derive(Debug, PartialEq, Eq, Hash)]
pub struct InternedString {
    pub id: usize,
    pub text: String,
}

impl Clone for InternedString {
    /// A new share of the same interned content.
    fn clone(&self) -> (r: Self)
        ensures
            r == *self,
    {
        InternedString { id: self.id, text: self.text.clone() }
    }
}

/// The string interner: a table of distinct contents. The index of a
/// content in the table is the identity of every handle for it.
pub struct StringInterner {
    pub strings: Vec<String>,
}

impl StringInterner {
    /// The contents held, in insertion order.
    pub open spec fn contents(self) -> Seq<Seq<char>> {
        self.strings@.map_values(|s: String| s@)
    }

    /// Well-formedness: no content is held twice.
    pub open spec fn wf(self) -> bool {
        forall|i: int, j: int|
            0 <= i < j < self.contents().len() ==> self.contents()[i] != self.contents()[j]
    }

    /// Whether some entry already holds `s`.
    pub open spec fn has_content(self, s: Seq<char>) -> bool {
        exists|i: int| 0 <= i < self.contents().len() && self.contents()[i] == s
    }

    /// Create an empty interner.
    pub fn new() -> (r: Self)
        ensures
            r.wf(),
            r.contents().len() == 0,
    {
        StringInterner { strings: Vec::new() }
    }

    /// Intern `s`: return a handle whose identity equals that of every
    /// other handle for the same content from this interner. Present
    /// content leaves the table unchanged; absent content is appended.
    pub fn intern(&mut self, s: &str) -> (r: InternedString)
        requires
            old(self).wf(),
        ensures
            final(self).wf(),
            r.valid_for(*final(self)),
            r.text@ == s@,
            forall|i: int|
                0 <= i < old(self).contents().len() ==> final(self).contents()[i] == old(
                    self,
                ).contents()[i],
            old(self).has_content(s@) ==> final(self).contents() == old(self).contents(),
            !old(self).has_content(s@) ==> final(self).contents() == old(self).contents().push(s@)
                && r.id == old(self).contents().len(),
    {
        let owned: String = s.to_owned();
        let n: usize = self.strings.len();
        let mut i: usize = 0;
        while i < n
            invariant
                *self == *old(self),
                self.wf(),
                n == self.contents().len(),
                i <= n,
                owned@ == s@,
                forall|j: int| 0 <= j < i ==> self.contents()[j] != s@,
            decreases n - i,
        {
            if self.strings[i] == owned {
                proof {
                    assert(self.contents()[i as int] == s@);
                }
                return InternedString { id: i, text: owned };
            }
            i = i + 1;
        }
        let text: String = owned.clone();
        self.strings.push(owned);
        assert(self.contents() =~= old(self).contents().push(s@));
        InternedString { id: n, text }
    }

    /// Number of distinct contents currently held.
    pub fn len(&self) -> (n: usize)
        ensures
            n == self.contents().len(),
    {
        self.strings.len()
    }

    /// Whether no content is held.
    pub fn is_empty(&self) -> (r: bool)
        ensures
            r == (self.contents().len() == 0),
    {
        self.strings.is_empty()
    }
}

impl InternedString {
    /// True of exactly the handles `interner` can have handed out: the
    /// entry at `id` holds `text`.
    pub open spec fn valid_for(self, interner: StringInterner) -> bool {
        &&& self.id < interner.contents().len()
        &&& interner.contents()[self.id as int] == self.text@
    }

    /// Intern `s` in `interner`; the free-standing constructor.
    pub fn new(interner: &mut StringInterner, s: &str) -> (r: InternedString)
        requires
            old(interner).wf(),
        ensures
            final(interner).wf(),
            r.valid_for(*final(interner)),
            r.text@ == s@,
            forall|i: int|
                0 <= i < old(interner).contents().len() ==> final(interner).contents()[i] == old(
                    interner,
                ).contents()[i],
            old(interner).has_content(s@) ==> final(interner).contents() == old(
                interner,
            ).contents(),
            !old(interner).has_content(s@) ==> final(interner).contents() == old(
                interner,
            ).contents().push(s@),
    {
        interner.intern(s)
    }

    /// The interned content.
    pub fn as_str(&self) -> (r: &str)
        ensures
            r@ == self.text@,
    {
        self.text.as_str()
    }
}

/// Count of distinct contents and the estimated memory they hold.
pub fn get_interner_stats(interner: &StringInterner) -> (r: (usize, usize))
    ensures
        r.0 == interner.contents().len(),
        r.1 == interner_memory(interner.contents()),
{
    let n: usize = interner.strings.len();
    let mut memory: usize = 0;
    let mut i: usize = 0;
    while i < n
        invariant
            n == interner.contents().len(),
            i <= n,
            memory == interner_memory(interner.contents().take(i as int)),
        decreases n - i,
    {
        let len_i: usize = interner.strings[i].as_str().len();
        memory = memory.saturating_add(len_i).saturating_add(INTERN_ENTRY_OVERHEAD);
        proof {
            assert(interner.contents().take(i + 1).drop_last() =~= interner.contents().take(
                i as int,
            ));
            assert(interner.contents().take(i + 1).last() == interner.contents()[i as int]);
        }
        i = i + 1;
    }
    proof {
        assert(interner.contents().take(n as int) =~= interner.contents());
    }
    (n, memory)
}

/// Drop every held content; handles already handed out keep their text
/// but their identities no longer refer to this interner.
pub fn clear_interner(interner: &mut StringInterner)
    ensures
        final(interner).wf(),
        final(interner).contents().len() == 0,
{
    interner.strings.clear();
}

/// Interning identity: two handles from one well-formed interner with
/// byte-equal content carry the same identity.
pub proof fn lemma_intern_identity(
    interner: StringInterner,
    a: InternedString,
    b: InternedString,
)
    requires
        interner.wf(),
        a.valid_for(interner),
        b.valid_for(interner),
        a.text@ == b.text@,
    ensures
        a.id == b.id,
{
    if a.id < b.id {
        assert(interner.contents()[a.id as int] != interner.contents()[b.id as int]);
    } else if b.id < a.id {
        assert(interner.contents()[b.id as int] != interner.contents()[a.id as int]);
    }
}

/// Interning distinctness: two handles from one well-formed interner with
/// different contents carry different identities.
pub proof fn lemma_intern_distinctness(
    interner: StringInterner,
    a: InternedString,
    b: InternedString,
)
    requires
        interner.wf(),
        a.valid_for(interner),
        b.valid_for(interner),
        a.text@ != b.text@,
    ensures
        a.id != b.id,
{
}

} // verus!
