use vstd::prelude::*;
use crate::linear_map::{LinearMap, cloned_seq, cloned_rev};

verus! {

/// A read-only copy of a sequence of values, with the first and the last
/// value of the sequence it was made from.
pub struct Range<'a, V: Clone> {
    vec_: Vec<V>,
    begin_: Option<&'a V>,
    end_: Option<&'a V>,
}

/// The first item of `s`, if any.
pub open spec fn seq_first<V>(s: Seq<V>) -> Option<V> {
    if s.len() > 0 {
        Some(s[0])
    } else {
        None
    }
}

/// The last item of `s`, if any.
pub open spec fn seq_last<V>(s: Seq<V>) -> Option<V> {
    if s.len() > 0 {
        Some(s.last())
    } else {
        None
    }
}

/// The value an optional reference points to.
pub open spec fn deref_opt<V>(o: Option<&V>) -> Option<V> {
    match o {
        Some(x) => Some(*x),
        None => None,
    }
}

impl<'a, V: Clone> View for Range<'a, V> {
    type V = Seq<V>;

    closed spec fn view(&self) -> Seq<V> {
        self.vec_@
    }
}

impl<'a, V: Clone> Range<'a, V> {
    /// The first value recorded at creation.
    pub closed spec fn spec_begin(&self) -> Option<V> {
        deref_opt(self.begin_)
    }

    /// The last value recorded at creation.
    pub closed spec fn spec_end(&self) -> Option<V> {
        deref_opt(self.end_)
    }

    /// A range over clones of `values`.
    pub fn new(values: &'a Vec<V>) -> (r: Self)
        ensures
            cloned_seq(values@, r@),
            r.spec_begin() == seq_first(values@),
            r.spec_end() == seq_last(values@),
    {
        let n = values.len();
        Range {
            vec_: values.clone(),
            begin_: if n > 0 { Some(&values[0]) } else { None },
            end_: if n > 0 { Some(&values[n - 1]) } else { None },
        }
    }

    /// A range over clones of the values of `values`.
    pub fn new_with_lm(values: &'a LinearMap<V>) -> (r: Self)
        ensures
            cloned_seq(values@, r@),
            r.spec_begin() == seq_first(values@),
            r.spec_end() == seq_last(values@),
    {
        Range { vec_: values.vec(), begin_: values.begin(), end_: values.end() }
    }

    /// A range over clones of the values of `values` in back-to-front
    /// order; the first and last values recorded are those of `values`
    /// front to back.
    pub fn new_with_lmrev(values: &'a LinearMap<V>) -> (r: Self)
        ensures
            cloned_rev(values@, r@),
            r.spec_begin() == seq_first(values@),
            r.spec_end() == seq_last(values@),
    {
        Range { vec_: values.vec_rev(), begin_: values.begin(), end_: values.end() }
    }

    pub fn begin(&self) -> (r: Option<&V>)
        ensures
            deref_opt(r) == self.spec_begin(),
    {
        self.begin_
    }

    pub fn end(&self) -> (r: Option<&V>)
        ensures
            deref_opt(r) == self.spec_end(),
    {
        self.end_
    }

    pub fn empty(&self) -> (r: bool)
        ensures
            r == (self@.len() == 0),
    {
        self.vec_.len() == 0
    }

    pub fn size(&self) -> (r: usize)
        ensures
            r == self@.len(),
    {
        self.vec_.len()
    }

    /// The values, handed over in order.
    pub fn into_vec(self) -> (r: Vec<V>)
        ensures
            r@ == self@,
    {
        self.vec_
    }
}

} // verus!
