use vstd::prelude::*;

use std::collections::BTreeMap;

use slab::Slab;

use crate::book::{OrderNode, PriceLevel};

verus! {

#[verifier::external_type_specification]
#[verifier::external_body]
#[verifier::reject_recursive_types(T)]
pub struct ExSlab<T>(Slab<T>);

/// The occupied entries of a slab of order nodes, by key.
pub uninterp spec fn slab_nodes(s: Slab<OrderNode>) -> Map<usize, OrderNode>;

/// Calls `Slab::new`: a slab with no entries.
#[verifier::external_body]
pub(crate) fn slab_new() -> (r: Slab<OrderNode>)
    ensures
        slab_nodes(r).is_empty(),
{
    Slab::new()
}

/// Calls `Slab::insert`: the node is stored under a key that was vacant, which is returned;
/// the other entries are unchanged.
#[verifier::external_body]
pub(crate) fn slab_insert(s: &mut Slab<OrderNode>, node: OrderNode) -> (key: usize)
    ensures
        !slab_nodes(*old(s)).contains_key(key),
        slab_nodes(*final(s)) == slab_nodes(*old(s)).insert(key, node),
{
    s.insert(node)
}

/// Calls `Slab::get`: the node stored under `key`, if any.
#[verifier::external_body]
pub(crate) fn slab_get(s: &Slab<OrderNode>, key: usize) -> (r: Option<OrderNode>)
    ensures
        r == (if slab_nodes(*s).contains_key(key) { Some(slab_nodes(*s)[key]) } else { None }),
{
    s.get(key).copied()
}

/// Calls `Slab::index_mut` to overwrite the node stored under an occupied key.
#[verifier::external_body]
pub(crate) fn slab_set(s: &mut Slab<OrderNode>, key: usize, node: OrderNode)
    requires
        slab_nodes(*old(s)).contains_key(key),
    ensures
        slab_nodes(*final(s)) == slab_nodes(*old(s)).insert(key, node),
{
    s[key] = node;
}

/// Calls `Slab::try_remove`: the node under `key`, if any, is taken out.
#[verifier::external_body]
pub(crate) fn slab_try_remove(s: &mut Slab<OrderNode>, key: usize) -> (r: Option<OrderNode>)
    ensures
        slab_nodes(*final(s)) == slab_nodes(*old(s)).remove(key),
        r == (if slab_nodes(*old(s)).contains_key(key) { Some(slab_nodes(*old(s))[key]) } else { None }),
{
    s.try_remove(key)
}

/// Calls `BTreeMap::first_key_value`: the entry with the smallest key, if the map is not empty.
#[verifier::external_body]
pub(crate) fn levels_first(m: &BTreeMap<u64, PriceLevel>) -> (r: Option<(u64, PriceLevel)>)
    ensures
        match r {
            None => m@.dom().is_empty(),
            Some((k, v)) => m@.contains_key(k) && m@[k] == v
                && forall|j: u64| #[trigger] m@.contains_key(j) ==> k <= j,
        },
{
    m.first_key_value().map(|(k, v)| (*k, *v))
}

/// Calls `BTreeMap::last_key_value`: the entry with the largest key, if the map is not empty.
#[verifier::external_body]
pub(crate) fn levels_last(m: &BTreeMap<u64, PriceLevel>) -> (r: Option<(u64, PriceLevel)>)
    ensures
        match r {
            None => m@.dom().is_empty(),
            Some((k, v)) => m@.contains_key(k) && m@[k] == v
                && forall|j: u64| #[trigger] m@.contains_key(j) ==> j <= k,
        },
{
    m.last_key_value().map(|(k, v)| (*k, *v))
}

} // verus!
