use vstd::prelude::*;
use vstd::std_specs::cmp::PartialEqSpecImpl;
use vstd::std_specs::cmp::PartialOrdSpecImpl;
use core::cmp::Ordering;

verus! {

/// The plain value behind every strong id: an index and a validity tag.
#[derive(Clone, Copy, Debug, Hash, Default)]
pub struct StrongId {
    primitive_val: usize,
    valid: bool,
}

/// Ids that carry an index and a validity tag.
///
/// A fresh id (`new`) is valid; an id can be marked valid or invalid
/// without changing its index.
pub trait Validable: Sized + Copy {
    /// The index the id stands for.
    spec fn spec_inner(&self) -> usize;

    /// Whether the id is marked valid.
    spec fn spec_valid(&self) -> bool;

    /// The fresh, valid id with index `id`.
    spec fn spec_new(id: usize) -> Self;

    /// The id with the same index as `self` and the tag `valid`.
    spec fn spec_marked(&self, valid: bool) -> Self;

    /// What `spec_new` and `spec_marked` build.
    proof fn lemma_spec(a: Self, id: usize, valid: bool)
        ensures
            Self::spec_new(id).spec_inner() == id,
            Self::spec_new(id).spec_valid(),
            a.spec_marked(valid).spec_inner() == a.spec_inner(),
            a.spec_marked(valid).spec_valid() == valid,
    ;

    fn new(id: usize) -> (r: Self)
        ensures
            r == Self::spec_new(id),
            r.spec_inner() == id,
            r.spec_valid(),
    ;

    fn inner(&self) -> (r: usize)
        ensures
            r == self.spec_inner(),
    ;

    fn valid(&self) -> (r: bool)
        ensures
            r == self.spec_valid(),
    ;

    /// Marks the id as valid and hands it back.
    fn mark_valid(&mut self) -> (r: &Self)
        ensures
            *final(self) == old(self).spec_marked(true),
            final(self).spec_inner() == old(self).spec_inner(),
            final(self).spec_valid(),
            *r == *final(self),
    ;

    /// Marks the id as invalid and hands it back.
    fn mark_invalid(&mut self) -> (r: &Self)
        ensures
            *final(self) == old(self).spec_marked(false),
            final(self).spec_inner() == old(self).spec_inner(),
            !final(self).spec_valid(),
            *r == *final(self),
    ;

    /// A clone of an id is the id itself.
    proof fn lemma_clone(a: Self, b: Self)
        requires
            cloned::<Self>(a, b),
        ensures
            a == b,
    ;

    /// Two ids with the same index and the same tag are the same id.
    proof fn lemma_ext(a: Self, b: Self)
        requires
            a.spec_inner() == b.spec_inner(),
            a.spec_valid() == b.spec_valid(),
        ensures
            a == b,
    ;
}

/// Strong id for nodes of the timing graph.
/// The default id is invalid, with index 0.
#[derive(Clone, Copy, Debug, Hash)]
pub struct NodeId(StrongId);

impl Validable for NodeId {
    closed spec fn spec_inner(&self) -> usize {
        self.0.primitive_val
    }

    closed spec fn spec_valid(&self) -> bool {
        self.0.valid
    }

    closed spec fn spec_new(id: usize) -> Self {
        NodeId(StrongId { primitive_val: id, valid: true })
    }

    closed spec fn spec_marked(&self, valid: bool) -> Self {
        NodeId(StrongId { primitive_val: self.0.primitive_val, valid })
    }

    proof fn lemma_spec(a: Self, id: usize, valid: bool) {
    }

    fn new(id: usize) -> (r: Self) {
        NodeId(StrongId { primitive_val: id, valid: true })
    }

    fn inner(&self) -> (r: usize) {
        self.0.primitive_val
    }

    fn valid(&self) -> (r: bool) {
        self.0.valid
    }

    fn mark_valid(&mut self) -> (r: &Self) {
        self.0.valid = true;
        self
    }

    fn mark_invalid(&mut self) -> (r: &Self) {
        self.0.valid = false;
        self
    }

    proof fn lemma_clone(a: Self, b: Self) {
    }

    proof fn lemma_ext(a: Self, b: Self) {
    }
}

impl Default for NodeId {
    fn default() -> (r: Self)
        ensures
            r == Self::spec_new(0).spec_marked(false),
            r.spec_inner() == 0,
            !r.spec_valid(),
    {
        NodeId(StrongId { primitive_val: 0, valid: false })
    }
}

/// Two ids are equal when their indices are equal, whatever their tags.
impl PartialEq for NodeId {
    fn eq(&self, other: &Self) -> (r: bool) {
        self.0.primitive_val == other.0.primitive_val
    }
}

impl PartialEqSpecImpl for NodeId {
    open spec fn obeys_eq_spec() -> bool {
        true
    }

    open spec fn eq_spec(&self, other: &Self) -> bool {
        self.spec_inner() == other.spec_inner()
    }
}

/// Strong id for blocks.
/// The default id is invalid, with index 0.
#[derive(Clone, Copy, Debug, Hash)]
pub struct BlkId(StrongId);

impl Validable for BlkId {
    closed spec fn spec_inner(&self) -> usize {
        self.0.primitive_val
    }

    closed spec fn spec_valid(&self) -> bool {
        self.0.valid
    }

    closed spec fn spec_new(id: usize) -> Self {
        BlkId(StrongId { primitive_val: id, valid: true })
    }

    closed spec fn spec_marked(&self, valid: bool) -> Self {
        BlkId(StrongId { primitive_val: self.0.primitive_val, valid })
    }

    proof fn lemma_spec(a: Self, id: usize, valid: bool) {
    }

    fn new(id: usize) -> (r: Self) {
        BlkId(StrongId { primitive_val: id, valid: true })
    }

    fn inner(&self) -> (r: usize) {
        self.0.primitive_val
    }

    fn valid(&self) -> (r: bool) {
        self.0.valid
    }

    fn mark_valid(&mut self) -> (r: &Self) {
        self.0.valid = true;
        self
    }

    fn mark_invalid(&mut self) -> (r: &Self) {
        self.0.valid = false;
        self
    }

    proof fn lemma_clone(a: Self, b: Self) {
    }

    proof fn lemma_ext(a: Self, b: Self) {
    }
}

impl Default for BlkId {
    fn default() -> (r: Self)
        ensures
            r == Self::spec_new(0).spec_marked(false),
            r.spec_inner() == 0,
            !r.spec_valid(),
    {
        BlkId(StrongId { primitive_val: 0, valid: false })
    }
}

/// Two ids are equal when their indices are equal, whatever their tags.
impl PartialEq for BlkId {
    fn eq(&self, other: &Self) -> (r: bool) {
        self.0.primitive_val == other.0.primitive_val
    }
}

impl PartialEqSpecImpl for BlkId {
    open spec fn obeys_eq_spec() -> bool {
        true
    }

    open spec fn eq_spec(&self, other: &Self) -> bool {
        self.spec_inner() == other.spec_inner()
    }
}

/// Strong id for edges of the timing graph.
/// The default id is invalid, with index 0.
#[derive(Clone, Copy, Debug, Hash)]
pub struct EdgeId(StrongId);

impl Validable for EdgeId {
    closed spec fn spec_inner(&self) -> usize {
        self.0.primitive_val
    }

    closed spec fn spec_valid(&self) -> bool {
        self.0.valid
    }

    closed spec fn spec_new(id: usize) -> Self {
        EdgeId(StrongId { primitive_val: id, valid: true })
    }

    closed spec fn spec_marked(&self, valid: bool) -> Self {
        EdgeId(StrongId { primitive_val: self.0.primitive_val, valid })
    }

    proof fn lemma_spec(a: Self, id: usize, valid: bool) {
    }

    fn new(id: usize) -> (r: Self) {
        EdgeId(StrongId { primitive_val: id, valid: true })
    }

    fn inner(&self) -> (r: usize) {
        self.0.primitive_val
    }

    fn valid(&self) -> (r: bool) {
        self.0.valid
    }

    fn mark_valid(&mut self) -> (r: &Self) {
        self.0.valid = true;
        self
    }

    fn mark_invalid(&mut self) -> (r: &Self) {
        self.0.valid = false;
        self
    }

    proof fn lemma_clone(a: Self, b: Self) {
    }

    proof fn lemma_ext(a: Self, b: Self) {
    }
}

impl Default for EdgeId {
    fn default() -> (r: Self)
        ensures
            r == Self::spec_new(0).spec_marked(false),
            r.spec_inner() == 0,
            !r.spec_valid(),
    {
        EdgeId(StrongId { primitive_val: 0, valid: false })
    }
}

/// Two ids are equal when their indices are equal, whatever their tags.
impl PartialEq for EdgeId {
    fn eq(&self, other: &Self) -> (r: bool) {
        self.0.primitive_val == other.0.primitive_val
    }
}

impl PartialEqSpecImpl for EdgeId {
    open spec fn obeys_eq_spec() -> bool {
        true
    }

    open spec fn eq_spec(&self, other: &Self) -> bool {
        self.spec_inner() == other.spec_inner()
    }
}

/// Strong id for levels of the timing graph.
/// The default id is invalid, with index 0.
#[derive(Clone, Copy, Debug, Hash)]
pub struct LevelId(StrongId);

impl Validable for LevelId {
    closed spec fn spec_inner(&self) -> usize {
        self.0.primitive_val
    }

    closed spec fn spec_valid(&self) -> bool {
        self.0.valid
    }

    closed spec fn spec_new(id: usize) -> Self {
        LevelId(StrongId { primitive_val: id, valid: true })
    }

    closed spec fn spec_marked(&self, valid: bool) -> Self {
        LevelId(StrongId { primitive_val: self.0.primitive_val, valid })
    }

    proof fn lemma_spec(a: Self, id: usize, valid: bool) {
    }

    fn new(id: usize) -> (r: Self) {
        LevelId(StrongId { primitive_val: id, valid: true })
    }

    fn inner(&self) -> (r: usize) {
        self.0.primitive_val
    }

    fn valid(&self) -> (r: bool) {
        self.0.valid
    }

    fn mark_valid(&mut self) -> (r: &Self) {
        self.0.valid = true;
        self
    }

    fn mark_invalid(&mut self) -> (r: &Self) {
        self.0.valid = false;
        self
    }

    proof fn lemma_clone(a: Self, b: Self) {
    }

    proof fn lemma_ext(a: Self, b: Self) {
    }
}

impl Default for LevelId {
    fn default() -> (r: Self)
        ensures
            r == Self::spec_new(0).spec_marked(false),
            r.spec_inner() == 0,
            !r.spec_valid(),
    {
        LevelId(StrongId { primitive_val: 0, valid: false })
    }
}

/// Two ids are equal when their indices are equal, whatever their tags.
impl PartialEq for LevelId {
    fn eq(&self, other: &Self) -> (r: bool) {
        self.0.primitive_val == other.0.primitive_val
    }
}

impl PartialEqSpecImpl for LevelId {
    open spec fn obeys_eq_spec() -> bool {
        true
    }

    open spec fn eq_spec(&self, other: &Self) -> bool {
        self.spec_inner() == other.spec_inner()
    }
}

/// Strong id for clock domains.
/// The default id is invalid, with index 0.
#[derive(Clone, Copy, Debug, Hash)]
pub struct DomainId(StrongId);

impl Validable for DomainId {
    closed spec fn spec_inner(&self) -> usize {
        self.0.primitive_val
    }

    closed spec fn spec_valid(&self) -> bool {
        self.0.valid
    }

    closed spec fn spec_new(id: usize) -> Self {
        DomainId(StrongId { primitive_val: id, valid: true })
    }

    closed spec fn spec_marked(&self, valid: bool) -> Self {
        DomainId(StrongId { primitive_val: self.0.primitive_val, valid })
    }

    proof fn lemma_spec(a: Self, id: usize, valid: bool) {
    }

    fn new(id: usize) -> (r: Self) {
        DomainId(StrongId { primitive_val: id, valid: true })
    }

    fn inner(&self) -> (r: usize) {
        self.0.primitive_val
    }

    fn valid(&self) -> (r: bool) {
        self.0.valid
    }

    fn mark_valid(&mut self) -> (r: &Self) {
        self.0.valid = true;
        self
    }

    fn mark_invalid(&mut self) -> (r: &Self) {
        self.0.valid = false;
        self
    }

    proof fn lemma_clone(a: Self, b: Self) {
    }

    proof fn lemma_ext(a: Self, b: Self) {
    }
}

impl Default for DomainId {
    fn default() -> (r: Self)
        ensures
            r == Self::spec_new(0).spec_marked(false),
            r.spec_inner() == 0,
            !r.spec_valid(),
    {
        DomainId(StrongId { primitive_val: 0, valid: false })
    }
}

/// Two ids are equal when their indices are equal, whatever their tags.
impl PartialEq for DomainId {
    fn eq(&self, other: &Self) -> (r: bool) {
        self.0.primitive_val == other.0.primitive_val
    }
}

impl PartialEqSpecImpl for DomainId {
    open spec fn obeys_eq_spec() -> bool {
        true
    }

    open spec fn eq_spec(&self, other: &Self) -> bool {
        self.spec_inner() == other.spec_inner()
    }
}

impl Eq for NodeId {
}

/// Node ids are ordered by their indices.
impl PartialOrd for NodeId {
    fn partial_cmp(&self, other: &Self) -> (r: Option<Ordering>) {
        if self.0.primitive_val < other.0.primitive_val {
            Some(Ordering::Less)
        } else if self.0.primitive_val == other.0.primitive_val {
            Some(Ordering::Equal)
        } else {
            Some(Ordering::Greater)
        }
    }
}

impl PartialOrdSpecImpl for NodeId {
    open spec fn obeys_partial_cmp_spec() -> bool {
        true
    }

    open spec fn partial_cmp_spec(&self, other: &Self) -> Option<Ordering> {
        if self.spec_inner() < other.spec_inner() {
            Some(Ordering::Less)
        } else if self.spec_inner() == other.spec_inner() {
            Some(Ordering::Equal)
        } else {
            Some(Ordering::Greater)
        }
    }
}

/// A pair of nodes, the two ends of an edge; two pairs are equal when
/// their ends have equal indices.
#[derive(Hash)]
pub struct Pair<'a> {
    pub src_node: &'a NodeId,
    pub sink_node: &'a NodeId,
}

impl<'a> PartialEq for Pair<'a> {
    fn eq(&self, other: &Self) -> (r: bool) {
        self.src_node.inner() == other.src_node.inner() && self.sink_node.inner()
            == other.sink_node.inner()
    }
}

impl<'a> PartialEqSpecImpl for Pair<'a> {
    open spec fn obeys_eq_spec() -> bool {
        true
    }

    open spec fn eq_spec(&self, other: &Self) -> bool {
        self.src_node.spec_inner() == other.src_node.spec_inner()
            && self.sink_node.spec_inner() == other.sink_node.spec_inner()
    }
}

impl<'a> Eq for Pair<'a> {
}

} // verus!
