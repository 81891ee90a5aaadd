//! Index-based arenas: grow-only allocators backed by a `Vec`, whose
//! values are named by their index.

use core::marker::PhantomData;
use vstd::prelude::*;

use crate::version_trait::{same_as, Ranked};

verus! {

/// The index of a value allocated in an arena that holds `T`s.
///
/// The Clone, Copy and other traits are defined manually because
/// deriving them adds some additional constraints on the `T` generic type
/// that we actually don't need since it is phantom.
///
/// The zero-based index is stored as `index + 1`, so that the stored value is
/// never zero. The largest representable index is therefore `u32::MAX - 1`.
#[derive(Debug)]
pub struct Id<T> {
    raw: u32,
    _ty: PhantomData<T>,
}

impl<T> Clone for Id<T> {
    fn clone(&self) -> (r: Self)
        ensures
            r == *self,
    {
        proof {
            use_type_invariant(self);
        }
        Id { raw: self.raw, _ty: PhantomData }
    }
}

impl<T> Copy for Id<T> {
}

impl<T> PartialEq for Id<T> {
    fn eq(&self, other: &Id<T>) -> (r: bool) {
        self.raw == other.raw
    }
}

impl<T> vstd::std_specs::cmp::PartialEqSpecImpl for Id<T> {
    open spec fn obeys_eq_spec() -> bool {
        true
    }

    open spec fn eq_spec(&self, other: &Id<T>) -> bool {
        self.index() == other.index()
    }
}

impl<T> Eq for Id<T> {
}

impl<T> Id<T> {
    #[verifier::type_invariant]
    spec fn inv(self) -> bool {
        self.raw > 0
    }

    /// The zero-based index.
    pub closed spec fn index(self) -> int {
        self.raw - 1
    }

    /// Identifiers are given by their index.
    pub proof fn lemma_index_determines(a: Self, b: Self)
        ensures
            a.index() == b.index() ==> a == b,
    {
    }

    /// The zero-based index of the value.
    pub fn into_raw(self) -> (r: usize)
        ensures
            r == self.index(),
            r < u32::MAX,
    {
        proof {
            use_type_invariant(&self);
        }
        (self.raw - 1) as usize
    }

    /// The identifier of the value at a zero-based index.
    pub fn from_usize(index: usize) -> (r: Self)
        requires
            index < u32::MAX,
        ensures
            r.index() == index,
    {
        Self { raw: index as u32 + 1, _ty: PhantomData }
    }

    /// The identifiers from `start` up to, but not including, `end`.
    pub fn range_to_iter(start: Self, end: Self) -> (r: Vec<Self>)
        ensures
            r@.len() == if start.index() <= end.index() { end.index() - start.index() } else { 0 },
            forall|k: int| 0 <= k < r@.len() ==> #[trigger] r@[k].index() == start.index() + k,
    {
        let s = start.into_raw();
        let e = end.into_raw();
        let mut out: Vec<Self> = Vec::new();
        let mut i = s;
        while i < e
            invariant
                s <= i,
                s == start.index(),
                e == end.index(),
                e < u32::MAX,
                i <= e || (s > e && i == s),
                out@.len() == i - s,
                forall|k: int| 0 <= k < out@.len() ==> #[trigger] out@[k].index() == s + k,
            decreases e - i,
        {
            out.push(Self::from_usize(i));
            i = i + 1;
        }
        out
    }
}

/// Yet another index-based arena.
///
/// An arena is a kind of simple grow-only allocator, backed by a `Vec`
/// where all items have the same lifetime, making it easier
/// to have references between those items.
/// They are all dropped at once when the arena is dropped.
#[derive(Clone, Debug)]
pub struct Arena<T> {
    data: Vec<T>,
}

impl<T> View for Arena<T> {
    type V = Seq<T>;

    closed spec fn view(&self) -> Seq<T> {
        self.data@
    }
}

impl<T> Arena<T> {
    /// An empty arena.
    pub fn new() -> (r: Self)
        ensures
            r@ == Seq::<T>::empty(),
    {
        Self { data: Vec::new() }
    }

    /// Store a value, and get its identifier.
    pub fn allocate(&mut self, value: T) -> (r: Id<T>)
        requires
            old(self)@.len() < u32::MAX,
        ensures
            final(self)@ == old(self)@.push(value),
            r.index() == old(self)@.len(),
    {
        let id = Id::from_usize(self.data.len());
        self.data.push(value);
        id
    }

    /// Store values, in order, and get the range of their identifiers.
    pub fn alloc_iter(&mut self, values: Vec<T>) -> (r: (Id<T>, Id<T>))
        requires
            old(self)@.len() + values@.len() < u32::MAX,
        ensures
            final(self)@ == old(self)@ + values@,
            r.0.index() == old(self)@.len(),
            r.1.index() == old(self)@.len() + values@.len(),
    {
        let start = Id::from_usize(self.data.len());
        let ghost before = self@;
        let ghost vals = values@;
        let mut values = values;
        let mut rest: Vec<T> = Vec::new();
        // Take the values out from the back, then store them from the front.
        while values.len() > 0
            invariant
                values@ + rest@.reverse() == vals,
            decreases values@.len(),
        {
            let v = values.pop().unwrap();
            let ghost r0 = rest@;
            rest.push(v);
            proof {
                assert(rest@.reverse() =~= seq![v] + r0.reverse());
            }
        }
        assert(rest@.reverse() =~= vals);
        while rest.len() > 0
            invariant
                self@ + rest@.reverse() == before + vals,
                self@.len() + rest@.len() == before.len() + vals.len(),
                before.len() + vals.len() < u32::MAX,
            decreases rest@.len(),
        {
            let v = rest.pop().unwrap();
            let ghost r0 = rest@;
            proof {
                assert(r0.push(v).reverse() =~= seq![v] + r0.reverse());
            }
            self.allocate(v);
        }
        assert(self@ =~= before + vals);
        let end = Id::from_usize(self.data.len());
        (start, end)
    }

    /// The number of stored values.
    pub fn len(&self) -> (r: usize)
        ensures
            r == self@.len(),
    {
        self.data.len()
    }

    /// The value with this identifier.
    pub fn get(&self, id: Id<T>) -> (r: &T)
        requires
            id.index() < self@.len(),
        ensures
            *r == self@[id.index()],
    {
        &self.data[id.into_raw()]
    }

    /// The values with identifiers from `start` up to, but not including, `end`.
    pub fn get_range(&self, start: Id<T>, end: Id<T>) -> (r: &[T])
        requires
            start.index() <= end.index() <= self@.len(),
        ensures
            r@ == self@.subrange(start.index(), end.index()),
    {
        let s = start.into_raw();
        let e = end.into_raw();
        slice_subrange(self.data.as_slice(), s, e)
    }
}

/// The part of a slice from `start` up to, but not including, `end`.
fn slice_subrange<T>(data: &[T], start: usize, end: usize) -> (r: &[T])
    requires
        start <= end <= data@.len(),
    ensures
        r@ == data@.subrange(start as int, end as int),
{
    let (_, tail) = data.split_at(start);
    let (mid, _) = tail.split_at(end - start);
    assert(mid@ =~= data@.subrange(start as int, end as int));
    mid
}

/// Yet another index-based arena. This one de-duplicates entries: a value is
/// stored once, and storing it again gives back its identifier.
#[derive(Clone, Debug)]
pub struct HashArena<T> {
    data: Vec<T>,
}

impl<T> View for HashArena<T> {
    type V = Seq<T>;

    closed spec fn view(&self) -> Seq<T> {
        self.data@
    }
}

/// No value occurs twice.
pub open spec fn no_duplicates<T>(s: Seq<T>) -> bool {
    forall|i: int, j: int| 0 <= i < j < s.len() ==> s[i] != s[j]
}

impl<T: Ranked> HashArena<T> {
    /// An empty arena.
    pub fn new() -> (r: Self)
        ensures
            r@ == Seq::<T>::empty(),
    {
        Self { data: Vec::new() }
    }

    /// Store a value unless it is already stored, and get its identifier.
    pub fn allocate(&mut self, value: T) -> (r: Id<T>)
        requires
            no_duplicates(old(self)@),
            old(self)@.len() <= u32::MAX,
            old(self)@.len() < u32::MAX || old(self)@.contains(value),
        ensures
            no_duplicates(final(self)@),
            final(self)@.len() <= u32::MAX,
            final(self)@ == if old(self)@.contains(value) { old(self)@ } else { old(self)@.push(value) },
            r.index() < final(self)@.len(),
            final(self)@[r.index()] == value,
    {
        let mut i: usize = 0;
        while i < self.data.len()
            invariant
                0 <= i <= self@.len(),
                self@ == old(self)@,
                no_duplicates(old(self)@),
                old(self)@.len() <= u32::MAX,
                forall|j: int| 0 <= j < i ==> self@[j] != value,
            decreases self@.len() - i,
        {
            if same_as(&self.data[i], &value) {
                proof {
                    assert(old(self)@.contains(value));
                }
                return Id::from_usize(i);
            }
            i = i + 1;
        }
        let id = Id::from_usize(self.data.len());
        self.data.push(value);
        proof {
            assert forall|a: int, b: int| 0 <= a < b < self@.len() implies self@[a] != self@[b] by {
                if b == old(self)@.len() {
                    assert(self@[a] == old(self)@[a]);
                }
            }
        }
        id
    }

    /// The value with the identifier.
    pub fn get(&self, id: Id<T>) -> (r: &T)
        requires
            id.index() < self@.len(),
        ensures
            *r == self@[id.index()],
    {
        &self.data[id.into_raw()]
    }
}

} // verus!
