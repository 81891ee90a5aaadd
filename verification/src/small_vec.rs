//! A vector that stores up to two items inline.

use vstd::prelude::*;
use vstd::std_specs::cmp::PartialEqSpec;

verus! {

/// A vector that keeps its first two items inline and only allocates a
/// `Vec` from the third one on.
#[derive(Debug, Clone, Hash)]
pub enum SmallVec<T> {
    /// No item.
    Empty,
    /// One item.
    One([T; 1]),
    /// Two items.
    Two([T; 2]),
    /// Three items or more.
    Flexible(Vec<T>),
}

/// The items of an array, moved into a vector, as std's `From<[T; N]>` for
/// `Vec<T>` does.
#[verifier::external_body]
fn array_into_vec<T, const N: usize>(a: [T; N]) -> (r: Vec<T>)
    ensures
        r@ == a@,
{
    Vec::from(a)
}

impl<T> View for SmallVec<T> {
    type V = Seq<T>;

    open spec fn view(&self) -> Seq<T> {
        match self {
            SmallVec::Empty => Seq::empty(),
            SmallVec::One(a) => a@,
            SmallVec::Two(a) => a@,
            SmallVec::Flexible(v) => v@,
        }
    }
}

impl<T> SmallVec<T> {
    /// The variant matches the number of items, so that two vectors with the
    /// same items are equal.
    pub open spec fn canonical(&self) -> bool {
        match self {
            SmallVec::Flexible(v) => v@.len() >= 3,
            _ => true,
        }
    }

    /// A vector without items.
    pub fn empty() -> (r: Self)
        ensures
            r@ == Seq::<T>::empty(),
            r.canonical(),
    {
        Self::Empty
    }

    /// A vector holding one item.
    pub fn one(t: T) -> (r: Self)
        ensures
            r@ == seq![t],
            r.canonical(),
    {
        let r = Self::One([t]);
        assert(r@ =~= seq![t]);
        r
    }

    /// The items, in order.
    pub fn as_slice(&self) -> (r: &[T])
        ensures
            r@ == self@,
    {
        match self {
            Self::Empty => {
                let e: &[T] = &[];
                assert(e@ =~= Seq::<T>::empty());
                e
            },
            Self::One(v) => v.as_slice(),
            Self::Two(v) => v.as_slice(),
            Self::Flexible(v) => v.as_slice(),
        }
    }

    /// The number of items.
    pub fn len(&self) -> (r: usize)
        ensures
            r == self@.len(),
    {
        self.as_slice().len()
    }

    /// Whether there is no item.
    pub fn is_empty(&self) -> (r: bool)
        ensures
            r == (self@.len() == 0),
    {
        self.len() == 0
    }

}

impl<T> SmallVec<T> {
    /// Append an item at the end.
    pub fn push(&mut self, new: T)
        ensures
            final(self)@ == old(self)@.push(new),
            *old(self) is Empty ==> *final(self) is One,
            *old(self) is One ==> *final(self) is Two,
            *old(self) is Two || *old(self) is Flexible ==> *final(self) is Flexible,
            old(self).canonical() ==> final(self).canonical(),
    {
        let mut tmp = Self::Empty;
        std::mem::swap(&mut tmp, self);
        let ghost before = tmp@;
        *self = match tmp {
            Self::Empty => Self::One([new]),
            Self::One(a) => {
                let mut v = array_into_vec(a);
                let v1 = v.pop().unwrap();
                Self::Two([v1, new])
            },
            Self::Two(a) => {
                let mut v = array_into_vec(a);
                v.push(new);
                Self::Flexible(v)
            },
            Self::Flexible(mut v) => {
                v.push(new);
                Self::Flexible(v)
            },
        };
        assert(self@ =~= before.push(new));
    }
}

impl<T: PartialEq> PartialEq for SmallVec<T> {
    /// Two vectors are equal when they hold equal items in the same order,
    /// whatever their variants.
    fn eq(&self, other: &Self) -> (r: bool) {
        let a = self.as_slice();
        let b = other.as_slice();
        if a.len() != b.len() {
            return false;
        }
        let mut i: usize = 0;
        while i < a.len()
            invariant
                a@ == self@,
                b@ == other@,
                a@.len() == b@.len(),
                0 <= i <= a@.len(),
                T::obeys_eq_spec() ==> forall|k: int| 0 <= k < i ==> #[trigger] a@[k].eq_spec(&b@[k]),
            decreases a@.len() - i,
        {
            if !(a[i] == b[i]) {
                return false;
            }
            i = i + 1;
        }
        true
    }
}

impl<T: PartialEq> vstd::std_specs::cmp::PartialEqSpecImpl for SmallVec<T> {
    open spec fn obeys_eq_spec() -> bool {
        T::obeys_eq_spec()
    }

    open spec fn eq_spec(&self, other: &Self) -> bool {
        self@.len() == other@.len() && forall|k: int| 0 <= k < self@.len() ==> #[trigger] self@[k].eq_spec(&other@[k])
    }
}

impl<T: Eq> Eq for SmallVec<T> {
}

impl<T> SmallVec<T> {
    /// The items, in order, for iteration.
    pub fn iter(&self) -> (r: &[T])
        ensures
            r@ == self@,
    {
        self.as_slice()
    }
}

} // verus!
