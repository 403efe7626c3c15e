use vstd::prelude::*;
use crate::ids::Validable;

verus! {

/// `v` is a value that `V::default()` can return.
pub open spec fn is_default<V: Default>(v: V) -> bool {
    call_ensures(V::default, (), v)
}

/// Every item of `r` is a clone of the item of `s` at the same place.
pub open spec fn cloned_seq<V: Clone>(s: Seq<V>, r: Seq<V>) -> bool {
    &&& r.len() == s.len()
    &&& forall|i: int| 0 <= i < s.len() ==> cloned::<V>(#[trigger] s[i], r[i])
}

/// Every item of `r` is a clone of the item of `s` at the mirrored place.
pub open spec fn cloned_rev<V: Clone>(s: Seq<V>, r: Seq<V>) -> bool {
    &&& r.len() == s.len()
    &&& forall|i: int| 0 <= i < s.len() ==> cloned::<V>(#[trigger] s[s.len() - 1 - i], r[i])
}

/// `Vec::capacity`: the number of items the vector can hold without
/// reallocating; its documentation promises no less than the length.
/// The exact number is the allocator's and is not stated.
#[verifier::external_body]
fn vec_capacity<V>(v: &Vec<V>) -> (r: usize)
    ensures
        r >= v@.len(),
{
    v.capacity()
}

/// `Vec::shrink_to_fit`: lowers the capacity and leaves the items as
/// they are.
#[verifier::external_body]
fn vec_shrink_to_fit<V>(v: &mut Vec<V>)
    ensures
        final(v)@ == old(v)@,
{
    v.shrink_to_fit()
}

/// A vector of values indexed by strong ids: the value for an id sits at
/// the id's index.
pub struct LinearMap<V: Clone> {
    vec_: Vec<V>,
}

impl<V: Clone> View for LinearMap<V> {
    type V = Seq<V>;

    closed spec fn view(&self) -> Seq<V> {
        self.vec_@
    }
}

// Indexing by a strong id.
impl<V: Clone> LinearMap<V> {
    /// The value at the index of `index`.
    pub fn index<K: Validable>(&self, index: K) -> (r: &V)
        requires
            index.spec_inner() < self@.len(),
        ensures
            *r == self@[index.spec_inner() as int],
    {
        &self.vec_[index.inner()]
    }

    /// Mutable access to the value at the index of `index`.
    pub fn index_mut<K: Validable>(&mut self, index: K) -> (r: &mut V)
        requires
            index.spec_inner() < old(self)@.len(),
        ensures
            *r == old(self)@[index.spec_inner() as int],
            final(self)@ == old(self)@.update(index.spec_inner() as int, *final(r)),
    {
        &mut self.vec_[index.inner()]
    }
}

// Read-only accessors.
impl<V: Clone> LinearMap<V> {
    /// The values, front to back.
    pub fn l_iter(&self) -> (r: &[V])
        ensures
            r@ == self@,
    {
        self.vec_.as_slice()
    }

    /// The values, back to front.
    pub fn r_iter(&self) -> (r: Vec<&V>)
        ensures
            r@.len() == self@.len(),
            forall|i: int| 0 <= i < r@.len() ==> *#[trigger] r@[i] == self@[self@.len() - 1 - i],
    {
        let n = self.vec_.len();
        let mut r: Vec<&V> = Vec::new();
        let mut i: usize = n;
        while i > 0
            invariant
                i <= n,
                n == self@.len(),
                r@.len() == n - i,
                forall|j: int| 0 <= j < r@.len() ==> *#[trigger] r@[j] == self@[n - 1 - j],
            decreases i,
        {
            i = i - 1;
            r.push(&self.vec_[i]);
        }
        r
    }

    /// The first value, if any.
    pub fn begin(&self) -> (r: Option<&V>)
        ensures
            match r {
                Some(x) => self@.len() > 0 && *x == self@[0],
                None => self@.len() == 0,
            },
    {
        if self.vec_.len() > 0 {
            Some(&self.vec_[0])
        } else {
            None
        }
    }

    /// The last value, if any.
    pub fn end(&self) -> (r: Option<&V>)
        ensures
            match r {
                Some(x) => self@.len() > 0 && *x == self@.last(),
                None => self@.len() == 0,
            },
    {
        let n = self.vec_.len();
        if n > 0 {
            Some(&self.vec_[n - 1])
        } else {
            None
        }
    }

    /// The first value in back-to-front order: the last value.
    pub fn rbegin(&self) -> (r: Option<&V>)
        ensures
            match r {
                Some(x) => self@.len() > 0 && *x == self@.last(),
                None => self@.len() == 0,
            },
    {
        self.end()
    }

    /// The last value in back-to-front order: the first value.
    pub fn rend(&self) -> (r: Option<&V>)
        ensures
            match r {
                Some(x) => self@.len() > 0 && *x == self@[0],
                None => self@.len() == 0,
            },
    {
        self.begin()
    }

    pub fn empty(&self) -> (r: bool)
        ensures
            r == (self@.len() == 0),
    {
        self.vec_.len() == 0
    }

    pub fn size(&self) -> (r: usize)
        ensures
            r == self@.len(),
    {
        self.vec_.len()
    }

    /// The capacity of the underlying vector: at least the size.
    pub fn capacity(&self) -> (r: usize)
        ensures
            r >= self@.len(),
    {
        vec_capacity(&self.vec_)
    }

    /// Clones of the values, front to back.
    pub fn vec(&self) -> (r: Vec<V>)
        ensures
            cloned_seq(self@, r@),
    {
        let n = self.vec_.len();
        let mut r: Vec<V> = Vec::new();
        let mut i: usize = 0;
        while i < n
            invariant
                i <= n,
                n == self@.len(),
                r@.len() == i,
                forall|j: int| 0 <= j < i ==> cloned::<V>(#[trigger] self@[j], r@[j]),
            decreases n - i,
        {
            r.push(self.vec_[i].clone());
            i = i + 1;
        }
        r
    }

    /// Clones of the values, back to front.
    pub fn vec_rev(&self) -> (r: Vec<V>)
        ensures
            cloned_rev(self@, r@),
    {
        let n = self.vec_.len();
        let mut r: Vec<V> = Vec::new();
        let mut i: usize = n;
        while i > 0
            invariant
                i <= n,
                n == self@.len(),
                r@.len() == n - i,
                forall|j: int| 0 <= j < r@.len() ==> cloned::<V>(#[trigger] self@[n - 1 - j], r@[j]),
            decreases i,
        {
            i = i - 1;
            r.push(self.vec_[i].clone());
        }
        r
    }
}

// Constructors.
impl<V: Clone> LinearMap<V> {
    /// A map that holds `values` as they are.
    pub fn new_with_vector(values: Vec<V>) -> (r: LinearMap<V>)
        ensures
            r@ == values@,
    {
        LinearMap { vec_: values }
    }

    /// An empty map with room for as many values as `values` holds.
    pub fn new_with_capacity_by_lm(values: &LinearMap<V>) -> (r: LinearMap<V>)
        ensures
            r@ == Seq::<V>::empty(),
    {
        LinearMap { vec_: Vec::with_capacity(values.size()) }
    }

    /// An empty map with room for `capacity` values.
    pub fn new_with_capacity(capacity: usize) -> (r: LinearMap<V>)
        ensures
            r@ == Seq::<V>::empty(),
    {
        LinearMap { vec_: Vec::with_capacity(capacity) }
    }

    /// A map of `size` values, each a clone of `value`.
    pub fn new_with_size(size: usize, value: V) -> (r: LinearMap<V>)
        ensures
            r@.len() == size,
            forall|i: int| 0 <= i < size ==> cloned::<V>(value, #[trigger] r@[i]),
    {
        let mut lm = LinearMap { vec_: Vec::with_capacity(size) };
        lm.vec_.resize(size, value);
        lm
    }
}

// Mutators.
impl<V: Clone> LinearMap<V> {
    /// Mutable access to the values (their number stays as it is).
    pub fn iter_mut(&mut self) -> (r: &mut [V])
        ensures
            r@ == old(self)@,
            final(self)@ == final(r)@,
    {
        self.vec_.as_mut_slice()
    }

    /// Appends one value at the back.
    pub fn push_back(&mut self, value: V)
        ensures
            final(self)@ == old(self)@.push(value),
    {
        self.vec_.push(value);
    }

    /// Appends `values` at the back, in their order.
    pub fn push_back_collection(&mut self, values: Vec<V>)
        ensures
            final(self)@ == old(self)@ + values@,
    {
        let mut values = values;
        self.vec_.append(&mut values);
    }

    /// Reserves room for at least `len_more` more values; the values stay.
    pub fn reserve(&mut self, len_more: usize)
        ensures
            final(self)@ == old(self)@,
    {
        self.vec_.reserve(len_more);
    }

    /// Reserves room for `len_more` more values, then fills the whole
    /// capacity with clones of `value`; the old values stay in front, and
    /// at least `len_more` new ones follow them.
    pub fn reserve_and_fill_default(&mut self, len_more: usize, value: V)
        requires
            old(self)@.len() + len_more <= usize::MAX,
        ensures
            final(self)@.len() >= old(self)@.len() + len_more,
            final(self)@.subrange(0, old(self)@.len() as int) == old(self)@,
            forall|i: int|
                old(self)@.len() <= i < final(self)@.len() ==> cloned::<V>(value, #[trigger] final(self)@[i]),
    {
        let old_len = self.vec_.len();
        self.vec_.reserve(len_more);
        let cap = vec_capacity(&self.vec_);
        // `reserve` leaves room for at least `len_more` more values, so the
        // capacity is never below this sum; the bound makes that explicit.
        let target = if cap >= old_len + len_more { cap } else { old_len + len_more };
        self.vec_.resize(target, value);
    }

    /// Fills the whole capacity with clones of `value`, without changing
    /// the capacity; the old values stay in front. `len` is not used.
    pub fn resize_and_fill_default(&mut self, len: usize, value: V)
        ensures
            final(self)@.len() >= old(self)@.len(),
            final(self)@.subrange(0, old(self)@.len() as int) == old(self)@,
            forall|i: int|
                old(self)@.len() <= i < final(self)@.len() ==> cloned::<V>(value, #[trigger] final(self)@[i]),
    {
        let cap = vec_capacity(&self.vec_);
        self.vec_.resize(cap, value);
    }

    /// Lowers the capacity to the size; the values stay.
    pub fn shrink_to_fit(&mut self)
        ensures
            final(self)@ == old(self)@,
    {
        vec_shrink_to_fit(&mut self.vec_);
    }

    /// Removes every value.
    pub fn clear(&mut self)
        ensures
            final(self)@ == Seq::<V>::empty(),
    {
        self.vec_.clear();
    }
}

/// The map after putting `v` at index `k`: the values before stay, the
/// gap up to `k` (if `k` lies beyond the end) is filled with defaults,
/// and the value at `k` is a clone of `v`.
pub open spec fn inserted<V: Clone + Default>(old_s: Seq<V>, k: int, v: V, new_s: Seq<V>) -> bool {
    &&& new_s.len() == if k < old_s.len() { old_s.len() as int } else { k + 1 }
    &&& forall|i: int| 0 <= i < old_s.len() && i != k ==> #[trigger] new_s[i] == old_s[i]
    &&& forall|i: int| old_s.len() <= i < k ==> is_default(#[trigger] new_s[i])
    &&& cloned::<V>(v, new_s[k])
}

impl<V: Clone + Default> LinearMap<V> {
    /// Puts a clone of `value` at the index of `key`; where that index lies
    /// beyond the end, the map first grows to reach it, filled with
    /// default values.
    pub fn insert<K: Validable>(&mut self, key: &K, value: &mut V)
        requires
            key.spec_inner() < usize::MAX,
        ensures
            inserted(old(self)@, key.spec_inner() as int, *old(value), final(self)@),
            *final(value) == *old(value),
    {
        let k = key.inner();
        while self.vec_.len() <= k
            invariant
                k == key.spec_inner(),
                k < usize::MAX,
                self.vec_@.len() >= old(self)@.len(),
                self.vec_@.subrange(0, old(self)@.len() as int) == old(self)@,
                self.vec_@.len() <= old(self)@.len() || self.vec_@.len() <= k + 1,
                forall|i: int|
                    old(self)@.len() <= i < self.vec_@.len() ==> is_default(#[trigger] self.vec_@[i]),
            decreases k + 1 - self.vec_@.len(),
        {
            self.vec_.push(V::default());
        }
        let c = value.clone();
        self.vec_.set(k, c);
        assert forall|i: int| 0 <= i < old(self)@.len() && i != k implies #[trigger] self.vec_@[i]
            == old(self)@[i] by {
            assert(self.vec_@[i] == self.vec_@.subrange(0, old(self)@.len() as int)[i]);
        }
    }
}

/// Swaps the contents of two maps that the call owns; nothing can be seen
/// of it afterwards.
pub fn swap<K: Validable, V: Clone>(x: LinearMap<V>, y: LinearMap<V>) {
    let mut x = x;
    let mut y = y;
    core::mem::swap(&mut x.vec_, &mut y.vec_);
}

} // verus!
