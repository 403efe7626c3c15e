use vstd::prelude::*;
use crate::ids::Validable;
use crate::linear_map::{LinearMap, is_default, inserted};

verus! {

/// Where an id sends a value when a map is rebuilt from it: to its index
/// if it is valid, nowhere otherwise.
pub open spec fn id_key<Id: Validable>(id: Id) -> Option<int> {
    if id.spec_valid() {
        Some(id.spec_inner() as int)
    } else {
        None
    }
}

/// The places that a sequence of ids sends values to, in order.
pub open spec fn id_keys<Id: Validable>(ids: Seq<Id>) -> Seq<Option<int>> {
    ids.map_values(|id: Id| id_key(id))
}

/// The position of the last write to place `p` among `keys`, or -1 when
/// no key names `p`.
pub open spec fn last_write(keys: Seq<Option<int>>, p: int) -> int
    decreases keys.len(),
{
    if keys.len() == 0 {
        -1
    } else if keys.last() == Some(p) {
        keys.len() - 1
    } else {
        last_write(keys.drop_last(), p)
    }
}

/// One past the largest place that `keys` names, or 0.
pub open spec fn scatter_len(keys: Seq<Option<int>>) -> int
    decreases keys.len(),
{
    if keys.len() == 0 {
        0
    } else {
        let l = scatter_len(keys.drop_last());
        match keys.last() {
            Some(k) => if k + 1 > l {
                k + 1
            } else {
                l
            },
            None => l,
        }
    }
}

/// The number of valid ids in `s`.
pub open spec fn count_valid<Id: Validable>(s: Seq<Id>) -> nat
    decreases s.len(),
{
    if s.len() == 0 {
        0
    } else {
        count_valid(s.drop_last()) + if s.last().spec_valid() {
            1nat
        } else {
            0nat
        }
    }
}

/// The valid ids of `s`, in order.
pub open spec fn valid_ids<Id: Validable>(s: Seq<Id>) -> Seq<Id>
    decreases s.len(),
{
    if s.len() == 0 {
        Seq::empty()
    } else if s.last().spec_valid() {
        valid_ids(s.drop_last()).push(s.last())
    } else {
        valid_ids(s.drop_last())
    }
}

/// The position in `s` that the `t`-th valid id of `s` comes from.
pub open spec fn valid_ids_origin<Id: Validable>(s: Seq<Id>, t: int) -> int
    decreases s.len(),
{
    if s.len() == 0 {
        0
    } else if s.last().spec_valid() && t == valid_ids(s.drop_last()).len() {
        s.len() - 1
    } else {
        valid_ids_origin(s.drop_last(), t)
    }
}

/// Each valid id of `s` is an id of `s` that is valid.
pub proof fn lemma_valid_ids_sub<Id: Validable>(s: Seq<Id>)
    ensures
        valid_ids(s).len() <= s.len(),
        forall|t: int| 0 <= t < valid_ids(s).len() ==> {
            let j = #[trigger] valid_ids_origin(s, t);
            &&& 0 <= j < s.len()
            &&& s[j] == valid_ids(s)[t]
            &&& s[j].spec_valid()
        },
    decreases s.len(),
{
    if s.len() > 0 {
        let p = s.drop_last();
        lemma_valid_ids_sub(p);
        assert forall|t: int| 0 <= t < valid_ids(s).len() implies {
            let j = #[trigger] valid_ids_origin(s, t);
            &&& 0 <= j < s.len()
            &&& s[j] == valid_ids(s)[t]
            &&& s[j].spec_valid()
        } by {
            if s.last().spec_valid() && t == valid_ids(p).len() {
            } else {
                let j = valid_ids_origin(p, t);
                assert(s[j] == p[j]);
            }
        }
    }
}

pub proof fn lemma_scatter_len_nonneg(keys: Seq<Option<int>>)
    requires
        forall|j: int| 0 <= j < keys.len() ==> (#[trigger] keys[j] matches Some(k) ==> k >= 0),
    ensures
        scatter_len(keys) >= 0,
    decreases keys.len(),
{
    if keys.len() > 0 {
        lemma_scatter_len_nonneg(keys.drop_last());
    }
}

/// Places at or beyond `scatter_len` are never written, and every written
/// place lies below it.
pub proof fn lemma_last_write_bound(keys: Seq<Option<int>>, p: int)
    ensures
        p >= scatter_len(keys) ==> last_write(keys, p) == -1,
        -1 <= last_write(keys, p) < keys.len(),
        last_write(keys, p) >= 0 ==> keys[last_write(keys, p)] == Some(p),
    decreases keys.len(),
{
    if keys.len() > 0 {
        lemma_last_write_bound(keys.drop_last(), p);
    }
}

/// Extending the keys by one: the new key names its place, the others
/// keep their last writes.
pub proof fn lemma_scatter_step(keys: Seq<Option<int>>, i: int, p: int)
    requires
        0 <= i < keys.len(),
    ensures
        keys.take(i + 1).drop_last() == keys.take(i),
        keys.take(i + 1).last() == keys[i],
        last_write(keys.take(i + 1), p) == if keys[i] == Some(p) {
            i
        } else {
            last_write(keys.take(i), p)
        },
        scatter_len(keys.take(i + 1)) == match keys[i] {
            Some(k) => if k + 1 > scatter_len(keys.take(i)) {
                k + 1
            } else {
                scatter_len(keys.take(i))
            },
            None => scatter_len(keys.take(i)),
        },
{
    assert(keys.take(i + 1).drop_last() =~= keys.take(i));
}

/// The length of the map that `compress_ids` builds from `ids`: one place
/// per entry of `ids`, and more where a valid id names a place beyond.
pub open spec fn compressed_len<Id: Validable>(ids: Seq<Id>) -> int {
    let l = scatter_len(id_keys(ids));
    if l > ids.len() {
        l
    } else {
        ids.len() as int
    }
}

/// A map from the old indices of `ids` to new ones: the k-th valid id of
/// `ids` (counting from 0) is sent to a fresh valid id with index k, at
/// its own old index; places that no valid id names (removed ids among
/// them) are left as blanks holding default ids. Where two valid ids share
/// an index, the later one wins.
pub fn compress_ids<Id: Validable + Clone + Default>(ids: &LinearMap<Id>) -> (r: LinearMap<Id>)
    requires
        forall|j: int| 0 <= j < ids@.len() ==> (#[trigger] ids@[j]).spec_valid() ==> ids@[j].spec_inner() < usize::MAX,
    ensures
        r@.len() == compressed_len(ids@),
        forall|p: int|
            0 <= p < r@.len() ==> {
                let w = #[trigger] last_write(id_keys(ids@), p);
                if w >= 0 {
                    &&& r@[p].spec_valid()
                    &&& r@[p].spec_inner() == count_valid(ids@.take(w))
                } else {
                    is_default(r@[p])
                }
            },
{
    let mut id_map = LinearMap::<Id>::new_with_capacity_by_lm(&ids);
    let mut flag: usize = 0;
    let s = ids.l_iter();
    let n = s.len();
    let ghost keys = id_keys(ids@);
    let mut i: usize = 0;
    while i < n
        invariant
            n == ids@.len(),
            s@ == ids@,
            keys == id_keys(ids@),
            0 <= i <= n,
            flag == count_valid(ids@.take(i as int)),
            flag <= i,
            forall|j: int| 0 <= j < ids@.len() ==> (#[trigger] ids@[j]).spec_valid() ==> ids@[j].spec_inner() < usize::MAX,
            id_map@.len() == scatter_len(keys.take(i as int)),
            forall|p: int|
                0 <= p < id_map@.len() ==> {
                    let w = #[trigger] last_write(keys.take(i as int), p);
                    if w >= 0 {
                        &&& id_map@[p].spec_valid()
                        &&& id_map@[p].spec_inner() == count_valid(ids@.take(w))
                    } else {
                        is_default(id_map@[p])
                    }
                },
        decreases n - i,
    {
        let id = &s[i];
        proof {
            assert(ids@.take(i + 1).drop_last() =~= ids@.take(i as int));
            assert(keys[i as int] == id_key(ids@[i as int]));
        }
        if id.valid() {
            let mut fresh = Id::new(flag);
            id_map.insert::<Id>(id, &mut fresh);
            proof {
                let k = id.spec_inner() as int;
                Id::lemma_clone(fresh, id_map@[k]);
                assert forall|p: int| 0 <= p < id_map@.len() implies {
                    let w = #[trigger] last_write(keys.take(i + 1), p);
                    if w >= 0 {
                        &&& id_map@[p].spec_valid()
                        &&& id_map@[p].spec_inner() == count_valid(ids@.take(w))
                    } else {
                        is_default(id_map@[p])
                    }
                } by {
                    lemma_scatter_step(keys, i as int, p);
                    lemma_last_write_bound(keys.take(i as int), p);
                }
                lemma_scatter_step(keys, i as int, 0);
            }
            flag = flag + 1;
        } else {
            proof {
                assert forall|p: int| 0 <= p < id_map@.len() implies {
                    let w = #[trigger] last_write(keys.take(i + 1), p);
                    if w >= 0 {
                        &&& id_map@[p].spec_valid()
                        &&& id_map@[p].spec_inner() == count_valid(ids@.take(w))
                    } else {
                        is_default(id_map@[p])
                    }
                } by {
                    lemma_scatter_step(keys, i as int, p);
                }
                lemma_scatter_step(keys, i as int, 0);
            }
        }
        i = i + 1;
    }
    proof {
        assert(keys.take(n as int) =~= keys);
    }
    // Removed ids at the end leave blanks too, so that every old index has
    // a place.
    while id_map.size() < n
        invariant
            n == ids@.len(),
            keys == id_keys(ids@),
            scatter_len(keys) <= id_map@.len() <= compressed_len(ids@),
            forall|p: int|
                0 <= p < id_map@.len() ==> {
                    let w = #[trigger] last_write(keys, p);
                    if w >= 0 {
                        &&& id_map@[p].spec_valid()
                        &&& id_map@[p].spec_inner() == count_valid(ids@.take(w))
                    } else {
                        is_default(id_map@[p])
                    }
                },
        decreases n - id_map@.len(),
    {
        let ghost l = id_map@.len() as int;
        id_map.push_back(Id::default());
        proof {
            lemma_last_write_bound(keys, l);
            assert forall|p: int| 0 <= p < id_map@.len() implies {
                let w = #[trigger] last_write(keys, p);
                if w >= 0 {
                    &&& id_map@[p].spec_valid()
                    &&& id_map@[p].spec_inner() == count_valid(ids@.take(w))
                } else {
                    is_default(id_map@[p])
                }
            } by {
                if p < l {
                    assert(id_map@[p] == id_map@.drop_last()[p]);
                }
            }
        }
    }
    id_map
}

/// Rebuilds `values` along `id_map`: the value at place `i` goes (as a
/// clone) to the index of `id_map[i]` when that id is valid; places that
/// no valid id names hold default values. Where two valid ids share an
/// index, the later one wins.
pub fn clean_and_reorder_values<T: Clone + Default, Id: Clone + Validable>(
    values: &mut LinearMap<T>,
    id_map: &mut LinearMap<Id>,
) -> (r: LinearMap<T>)
    requires
        old(values)@.len() == old(id_map)@.len(),
        forall|j: int|
            0 <= j < old(id_map)@.len() ==> (#[trigger] old(id_map)@[j]).spec_valid() ==> old(id_map)@[j].spec_inner() < usize::MAX,
    ensures
        final(values)@ == old(values)@,
        final(id_map)@ == old(id_map)@,
        r@.len() == scatter_len(id_keys(old(id_map)@)),
        forall|p: int|
            0 <= p < r@.len() ==> {
                let w = #[trigger] last_write(id_keys(old(id_map)@), p);
                if w >= 0 {
                    cloned::<T>(old(values)@[w], r@[p])
                } else {
                    is_default(r@[p])
                }
            },
{
    let mut result = LinearMap::new_with_capacity_by_lm(&values);
    let n = values.size();
    let ghost keys = id_keys(id_map@);
    let mut i: usize = 0;
    while i < n
        invariant
            n == values@.len(),
            values@ == old(values)@,
            id_map@ == old(id_map)@,
            n == id_map@.len(),
            keys == id_keys(id_map@),
            0 <= i <= n,
            forall|j: int| 0 <= j < id_map@.len() ==> (#[trigger] id_map@[j]).spec_valid() ==> id_map@[j].spec_inner() < usize::MAX,
            result@.len() == scatter_len(keys.take(i as int)),
            forall|p: int|
                0 <= p < result@.len() ==> {
                    let w = #[trigger] last_write(keys.take(i as int), p);
                    if w >= 0 {
                        cloned::<T>(values@[w], result@[p])
                    } else {
                        is_default(result@[p])
                    }
                },
        decreases n - i,
    {
        let id_for_index = Id::new(i);
        let id_in_map = *id_map.index(id_for_index);
        proof {
            assert(keys[i as int] == id_key(id_map@[i as int]));
        }
        if id_in_map.valid() {
            let id_for_index = Id::new(i);
            result.insert::<Id>(&id_in_map, values.index_mut(id_for_index));
            proof {
                assert forall|p: int| 0 <= p < result@.len() implies {
                    let w = #[trigger] last_write(keys.take(i + 1), p);
                    if w >= 0 {
                        cloned::<T>(values@[w], result@[p])
                    } else {
                        is_default(result@[p])
                    }
                } by {
                    lemma_scatter_step(keys, i as int, p);
                    lemma_last_write_bound(keys.take(i as int), p);
                }
                lemma_scatter_step(keys, i as int, 0);
            }
        } else {
            proof {
                assert forall|p: int| 0 <= p < result@.len() implies {
                    let w = #[trigger] last_write(keys.take(i + 1), p);
                    if w >= 0 {
                        cloned::<T>(values@[w], result@[p])
                    } else {
                        is_default(result@[p])
                    }
                } by {
                    lemma_scatter_step(keys, i as int, p);
                }
                lemma_scatter_step(keys, i as int, 0);
            }
        }
        i = i + 1;
    }
    proof {
        assert(keys.take(n as int) =~= keys);
    }
    result
}

/// The valid ids of `id_map`, in order.
pub fn clean_and_reorder_ids<Id: Clone + Validable>(id_map: &mut LinearMap<Id>) -> (r: LinearMap<Id>)
    ensures
        final(id_map)@ == old(id_map)@,
        r@ == valid_ids(old(id_map)@),
{
    let mut result = LinearMap::new_with_capacity_by_lm(&id_map);
    let n = id_map.size();
    let mut i: usize = 0;
    while i < n
        invariant
            n == id_map@.len(),
            id_map@ == old(id_map)@,
            0 <= i <= n,
            result@ == valid_ids(id_map@.take(i as int)),
        decreases n - i,
    {
        let id_for_index = Id::new(i);
        let id_in_map = id_map.index(id_for_index);
        proof {
            assert(id_map@.take(i + 1).drop_last() =~= id_map@.take(i as int));
        }
        if id_in_map.valid() {
            let c = id_in_map.clone();
            proof {
                Id::lemma_clone(*id_in_map, c);
            }
            result.push_back(c);
        }
        i = i + 1;
    }
    proof {
        assert(id_map@.take(n as int) =~= id_map@);
    }
    result
}

/// The ids in `s` sent through `m`: each valid id is replaced by the
/// value at its index in `m`; invalid ids are left out.
pub open spec fn remap_valid<V: Validable>(s: Seq<V>, m: Seq<V>) -> Seq<V> {
    valid_ids(s).map_values(|v: V| m[v.spec_inner() as int])
}

/// Sends the valid ids of an edge list through `id_map`, dropping the
/// invalid ones.
pub(crate) fn update_node_referenced_edges<V: Validable + Clone>(values: &Vec<V>, id_map: &LinearMap<V>) -> (r: Vec<V>)
    requires
        forall|j: int|
            0 <= j < values@.len() && (#[trigger] values@[j]).spec_valid() ==> values@[j].spec_inner() < id_map@.len(),
    ensures
        r@ == remap_valid(values@, id_map@),
{
    let mut updated: Vec<V> = Vec::new();
    let n = values.len();
    let mut i: usize = 0;
    while i < n
        invariant
            n == values@.len(),
            0 <= i <= n,
            forall|j: int|
                0 <= j < values@.len() && (#[trigger] values@[j]).spec_valid() ==> values@[j].spec_inner() < id_map@.len(),
            updated@ == remap_valid(values@.take(i as int), id_map@),
        decreases n - i,
    {
        let node_id = &values[i];
        proof {
            assert(values@.take(i + 1).drop_last() =~= values@.take(i as int));
        }
        if node_id.valid() {
            let updated_node_id = id_map.index(*node_id).clone();
            proof {
                V::lemma_clone(id_map@[node_id.spec_inner() as int], updated_node_id);
                assert(remap_valid(values@.take(i + 1), id_map@) =~= remap_valid(
                    values@.take(i as int),
                    id_map@,
                ).push(updated_node_id));
            }
            updated.push(updated_node_id);
        } else {
            proof {
                assert(remap_valid(values@.take(i + 1), id_map@) =~= remap_valid(
                    values@.take(i as int),
                    id_map@,
                ));
            }
        }
        i = i + 1;
    }
    proof {
        assert(values@.take(n as int) =~= values@);
    }
    updated
}

/// Sends every id of `values`, valid or not, through `id_map`.
pub(crate) fn update_edge_connected_nodes<K: Clone + Validable, V: Validable + Clone>(
    values: &LinearMap<K>,
    id_map: &LinearMap<V>,
) -> (r: LinearMap<V>)
    requires
        forall|j: int| 0 <= j < values@.len() ==> (#[trigger] values@[j]).spec_inner() < id_map@.len(),
    ensures
        r@ == values@.map_values(|k: K| id_map@[k.spec_inner() as int]),
{
    let mut updated = LinearMap::new_with_vector(Vec::new());
    let s = values.l_iter();
    let n = s.len();
    let mut i: usize = 0;
    while i < n
        invariant
            n == values@.len(),
            s@ == values@,
            0 <= i <= n,
            forall|j: int| 0 <= j < values@.len() ==> (#[trigger] values@[j]).spec_inner() < id_map@.len(),
            updated@ =~= values@.take(i as int).map_values(|k: K| id_map@[k.spec_inner() as int]),
        decreases n - i,
    {
        let node_id = &s[i];
        let updated_node_id = id_map.index(*node_id).clone();
        proof {
            V::lemma_clone(id_map@[node_id.spec_inner() as int], updated_node_id);
        }
        updated.push_back(updated_node_id);
        i = i + 1;
    }
    proof {
        assert(values@.take(n as int) =~= values@);
    }
    updated
}

} // verus!

verus! {

/// Clones of ids are the ids themselves.
pub proof fn lemma_cloned_ids<Id: Validable>(s: Seq<Id>, r: Seq<Id>)
    requires
        crate::linear_map::cloned_seq(s, r),
    ensures
        r == s,
{
    assert forall|i: int| 0 <= i < s.len() implies r[i] == s[i] by {
        Id::lemma_clone(s[i], r[i]);
    }
    assert(r =~= s);
}

} // verus!
