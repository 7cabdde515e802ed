//! Inline string tables: the encoder's intern table and the decoder's lookup table.

use vstd::prelude::*;
use crate::value::{bytes_eq, copy_bytes};

verus! {

/// Encoder side: the first occurrence of a string gets the next id, counting from 0.
pub struct EncodeStringTable {
    entries: Vec<Vec<u8>>,
}

/// The strings of a table, in id order.
pub open spec fn strings_view(entries: Seq<Vec<u8>>) -> Seq<Seq<u8>> {
    Seq::new(entries.len(), |i: int| entries[i]@)
}

impl View for EncodeStringTable {
    type V = Seq<Seq<u8>>;

    closed spec fn view(&self) -> Seq<Seq<u8>> {
        strings_view(self.entries@)
    }
}

impl EncodeStringTable {
    /// No string occurs twice.
    pub open spec fn wf(&self) -> bool {
        self@.no_duplicates()
    }

    /// An empty table.
    pub fn new() -> (r: Self)
        ensures
            r@ == Seq::<Seq<u8>>::empty(),
            r.wf(),
    {
        let r = EncodeStringTable { entries: Vec::new() };
        assert(r@ =~= Seq::<Seq<u8>>::empty());
        r
    }

    /// Look `bytes` up, interning it if it is new. Returns `(id, is_new)`.
    pub fn intern_get(&mut self, bytes: &[u8]) -> (r: (u32, bool))
        requires
            old(self).wf(),
        ensures
            final(self).wf(),
            old(self)@.contains(bytes@) ==> r == ((old(self)@.index_of(bytes@) as u32), false)
                && final(self)@ == old(self)@,
            !old(self)@.contains(bytes@) ==> r == ((old(self)@.len() as u32), true)
                && final(self)@ == old(self)@.push(bytes@),
    {
        let mut i: usize = 0;
        while i < self.entries.len()
            invariant
                i <= self.entries.len(),
                self.wf(),
                forall|j: int| 0 <= j < i ==> self@[j] != bytes@,
            decreases self.entries.len() - i,
        {
            if bytes_eq(self.entries[i].as_slice(), bytes) {
                assert(self@[i as int] == bytes@);
                assert(self@.index_of(bytes@) == i as int);
                return (i as u32, false);
            }
            i = i + 1;
        }
        let id = self.entries.len() as u32;
        let ghost old_view = self@;
        self.entries.push(copy_bytes(bytes));
        assert(self@ =~= old_view.push(bytes@));
        (id, true)
    }

    /// Number of interned strings.
    pub fn len(&self) -> (r: usize)
        ensures
            r == self@.len(),
    {
        self.entries.len()
    }

    /// True when nothing is interned.
    pub fn is_empty(&self) -> (r: bool)
        ensures
            r == (self@.len() == 0),
    {
        self.entries.len() == 0
    }
}

/// Decoder side: stores the bytes of each defined string for `STR_REF` lookup.
pub struct DecodeStringTable {
    entries: Vec<Vec<u8>>,
}

impl View for DecodeStringTable {
    type V = Seq<Seq<u8>>;

    closed spec fn view(&self) -> Seq<Seq<u8>> {
        strings_view(self.entries@)
    }
}

impl DecodeStringTable {
    /// An empty table.
    pub fn new() -> (r: Self)
        ensures
            r@ == Seq::<Seq<u8>>::empty(),
    {
        let r = DecodeStringTable { entries: Vec::new() };
        assert(r@ =~= Seq::<Seq<u8>>::empty());
        r
    }

    /// Append a string; returns its id.
    pub fn push(&mut self, bytes: Vec<u8>) -> (r: u32)
        ensures
            r == old(self)@.len() as u32,
            final(self)@ == old(self)@.push(bytes@),
    {
        let id = self.entries.len() as u32;
        let ghost old_view = self@;
        self.entries.push(bytes);
        assert(self@ =~= old_view.push(bytes@));
        id
    }

    /// The bytes of string `id`, if defined.
    pub fn get(&self, id: u32) -> (r: Option<&[u8]>)
        ensures
            (id as int) < self@.len() ==> (r matches Some(s) && s@ == self@[id as int]),
            (id as int) >= self@.len() ==> r is None,
    {
        let i = id as usize;
        if i < self.entries.len() {
            Some(self.entries[i].as_slice())
        } else {
            None
        }
    }

    /// Number of defined strings.
    pub fn len(&self) -> (r: usize)
        ensures
            r == self@.len(),
    {
        self.entries.len()
    }
}

/// Interning the same bytes twice: the second time finds them, with the id the first time
/// gave, and the table still holds no string twice.
pub proof fn lemma_intern_twice(t: Seq<Seq<u8>>, b: Seq<u8>)
    requires
        t.no_duplicates(),
    ensures
        ({
            let t1 = if t.contains(b) {
                t
            } else {
                t.push(b)
            };
            let id = if t.contains(b) {
                t.index_of(b)
            } else {
                t.len() as int
            };
            &&& t1.no_duplicates()
            &&& t1.contains(b)
            &&& t1.index_of(b) == id
        }),
{
    if !t.contains(b) {
        let t1 = t.push(b);
        assert(t1[t.len() as int] == b);
        let k = t1.index_of(b);
        if k < t.len() {
            assert(t[k] == b);
        }
        assert forall|i: int, j: int| 0 <= i < t1.len() && 0 <= j < t1.len() && i != j implies t1[i]
            != t1[j] by {
            if i < t.len() && j < t.len() {
                assert(t[i] != t[j]);
            } else if i < t.len() {
                assert(t1[i] == t[i]);
            } else if j < t.len() {
                assert(t1[j] == t[j]);
            }
        }
    } else {
        let k = t.index_of(b);
        assert(t[k] == b);
    }
}

} // verus!
