//! The frozen result of a build: one shared byte buffer plus a span
//! table locating each input string inside it.

use vstd::prelude::*;

use crate::bytes::{boundary_at, is_boundary};

verus! {

/// A compact collection of byte strings.
///
/// The collection stores all strings in one shared buffer; entry `i` of
/// `spans` locates string `i` as an `(offset, length)` pair. It is
/// produced by `Builder` and is immutable once built. Individual
/// elements are read with `get`, or in order with `iter`.
#[derive(Clone)]
pub struct SubStr {
    pub spans: Vec<(u32, u8)>,
    pub string: Vec<u8>,
}

impl SubStr {
    /// Every span stays inside the shared buffer.
    pub open spec fn wf(self) -> bool {
        forall|i: int|
            0 <= i < self.spans@.len() ==> (#[trigger] self.spans@[i]).0 + self.spans@[i].1
                <= self.string@.len()
    }

    /// Buffer position `b` lies inside at least one span: the buffer
    /// holds no byte that no entry reaches.
    pub open spec fn reaches(self, b: int) -> bool {
        exists|t: int|
            0 <= t < self.spans@.len() && ((#[trigger] self.spans@[t]).0 <= b < self.spans@[t].0
                + self.spans@[t].1)
    }

    /// The bytes of entry `i`.
    pub open spec fn at(self, i: int) -> Seq<u8> {
        self.string@.subrange(
            self.spans@[i].0 as int,
            self.spans@[i].0 + self.spans@[i].1,
        )
    }

    /// Returns the number of elements in the collection.
    pub fn len(&self) -> (r: usize)
        ensures
            r == self.spans@.len(),
    {
        self.spans.len()
    }

    /// Returns the length of the shared storage buffer in bytes.
    pub fn storage_len(&self) -> (r: usize)
        ensures
            r == self.string@.len(),
    {
        self.string.len()
    }

    /// Returns `true` if the collection contains no elements.
    pub fn is_empty(&self) -> (r: bool)
        ensures
            r == (self.spans@.len() == 0),
    {
        self.spans.len() == 0
    }

    /// Return the bytes of the element at `index`, if it exists.
    pub fn get(&self, index: usize) -> (r: Option<&[u8]>)
        requires
            self.wf(),
        ensures
            r is Some <==> (index as int) < self.spans@.len(),
            r matches Some(s) ==> s@ == self.at(index as int),
    {
        if index < self.spans.len() {
            let (o, l) = self.spans[index];
            let buf_len = self.string.len();
            proof {
                assert(self.spans@[index as int].0 + self.spans@[index as int].1 <= buf_len);
            }
            Some(
                vstd::slice::slice_subrange(
                    self.string.as_slice(),
                    o as usize,
                    o as usize + l as usize,
                ),
            )
        } else {
            None
        }
    }

    /// Returns an iterator over the collection, by ascending id.
    pub fn iter<'a>(&'a self) -> (r: Iter<'a>)
        ensures
            r.vec == self,
            r.current_item == 0,
    {
        Iter { current_item: 0, vec: self }
    }

    /// Returns up to `len` bytes of the shared buffer immediately in
    /// front of the element at `index`, extended backwards to the
    /// nearest position that does not split an encoded character.
    pub fn before(&self, index: usize, len: usize) -> (r: Option<&[u8]>)
        requires
            self.wf(),
        ensures
            r is Some <==> (index as int) < self.spans@.len(),
            r matches Some(s) ==> {
                let pos = self.spans@[index as int].0 as int;
                let lo = if pos < len {
                    0int
                } else {
                    pos - len
                };
                let start = pos - s@.len();
                &&& 0 <= start <= lo
                &&& is_boundary(self.string@, start)
                &&& forall|k: int| start < k <= lo ==> !is_boundary(self.string@, k)
                &&& s@ == self.string@.subrange(start, pos)
            },
    {
        if index < self.spans.len() {
            let (position, _) = self.spans[index];
            let position = position as usize;
            let mut start: usize = if position < len {
                0
            } else {
                position - len
            };
            let ghost lo = start as int;
            while !boundary_at(&self.string, start)
                invariant
                    start <= lo <= position <= self.string@.len(),
                    forall|k: int| start < k <= lo ==> !is_boundary(self.string@, k),
                decreases start,
            {
                start -= 1;
            }
            Some(vstd::slice::slice_subrange(self.string.as_slice(), start, position))
        } else {
            None
        }
    }

    /// Returns up to `len` bytes of the shared buffer immediately behind
    /// the element at `index`, extended forwards to the nearest position
    /// that does not split an encoded character.
    pub fn after(&self, index: usize, len: usize) -> (r: Option<&[u8]>)
        requires
            self.wf(),
        ensures
            r is Some <==> (index as int) < self.spans@.len(),
            r matches Some(s) ==> {
                let pos = self.spans@[index as int].0 as int;
                let l = self.spans@[index as int].1 as int;
                let hi = if self.string@.len() <= pos + l + len {
                    self.string@.len() as int
                } else {
                    pos + l + len
                };
                let end = pos + l + s@.len();
                &&& hi <= end <= self.string@.len()
                &&& is_boundary(self.string@, end)
                &&& forall|k: int| hi <= k < end ==> !is_boundary(self.string@, k)
                &&& s@ == self.string@.subrange(pos + l, end)
            },
    {
        if index < self.spans.len() {
            let (position, length) = self.spans[index];
            let position = position as usize;
            let length = length as usize;
            let avail = self.string.len() - (position + length);
            let mut end: usize = if len >= avail {
                self.string.len()
            } else {
                position + length + len
            };
            let ghost hi = end as int;
            let buf_len = self.string.len();
            while !boundary_at(&self.string, end)
                invariant
                    hi <= end <= buf_len,
                    buf_len == self.string@.len(),
                    forall|k: int| hi <= k < end ==> !is_boundary(self.string@, k),
                decreases buf_len - end,
            {
                proof {
                    assert(end < buf_len);
                }
                end += 1;
            }
            Some(vstd::slice::slice_subrange(self.string.as_slice(), position + length, end))
        } else {
            None
        }
    }
}

impl Default for SubStr {
    /// An empty collection: no elements and an empty buffer.
    fn default() -> (r: Self)
        ensures
            r.spans@.len() == 0,
            r.string@.len() == 0,
    {
        SubStr { spans: Vec::new(), string: Vec::new() }
    }
}

/// An iterator over the elements of a `SubStr`, by ascending id.
pub struct Iter<'a> {
    pub current_item: usize,
    pub vec: &'a SubStr,
}

impl<'a> Iter<'a> {
    /// Hand out the bytes of the next element, or nothing once every
    /// element has been handed out.
    pub fn next(&mut self) -> (r: Option<&'a [u8]>)
        requires
            old(self).vec.wf(),
        ensures
            final(self).vec == old(self).vec,
            (old(self).current_item as int) < old(self).vec.spans@.len() ==> {
                &&& final(self).current_item == old(self).current_item + 1
                &&& r matches Some(s) && s@ == old(self).vec.at(old(self).current_item as int)
            },
            (old(self).current_item as int) >= old(self).vec.spans@.len() ==> {
                &&& r is None
                &&& final(self).current_item == old(self).current_item
            },
    {
        if self.current_item < self.vec.len() {
            self.current_item += 1;
            self.vec.get(self.current_item - 1)
        } else {
            None
        }
    }
}

} // verus!
