//! The insertion-ordered collections of `indexmap` that the resolver keeps
//! its state in, with the contracts their documentation gives, and the
//! entries of a `HashMap` handed in by callers.

use std::collections::HashMap;
use std::sync::Arc;
use indexmap::{IndexMap, IndexSet};
use vstd::prelude::*;
use crate::ast::BlockNode;
use crate::resolver::ResolvedModule;
use crate::value::TemplateValue;

verus! {

#[verifier::external_type_specification]
#[verifier::external_body]
#[verifier::reject_recursive_types(K)]
#[verifier::reject_recursive_types(V)]
#[verifier::reject_recursive_types(S)]
pub struct ExIndexMap<K, V, S>(IndexMap<K, V, S>);

#[verifier::external_type_specification]
#[verifier::external_body]
#[verifier::reject_recursive_types(T)]
#[verifier::reject_recursive_types(S)]
pub struct ExIndexSet<T, S>(IndexSet<T, S>);

/// The entries of the module cache, keys by their text, in insertion order.
pub uninterp spec fn module_entries(m: IndexMap<String, Arc<ResolvedModule>>) -> Seq<(Seq<char>, Arc<ResolvedModule>)>;

/// The entries of a block map, keys by their text, in insertion order.
pub uninterp spec fn block_entries(m: IndexMap<String, Arc<BlockNode>>) -> Seq<(Seq<char>, Arc<BlockNode>)>;

/// The items of a key set, by their text, in insertion order.
pub uninterp spec fn set_items(s: IndexSet<String>) -> Seq<Seq<char>>;

/// The keys of a sequence of entries.
pub open spec fn keys_of<V>(es: Seq<(Seq<char>, V)>) -> Seq<Seq<char>> {
    es.map_values(|e: (Seq<char>, V)| e.0)
}

/// The value of the entry with key `k`, if there is one (the first such).
pub open spec fn value_of<V>(es: Seq<(Seq<char>, V)>, k: Seq<char>) -> Option<V>
    decreases es.len(),
{
    if es.len() == 0 {
        None
    } else if es[0].0 == k {
        Some(es[0].1)
    } else {
        value_of(es.drop_first(), k)
    }
}

/// The entries after inserting `(k, v)`: an existing key keeps its place and
/// takes the new value; a new key goes last.
pub open spec fn inserted<V>(es: Seq<(Seq<char>, V)>, k: Seq<char>, v: V) -> Seq<(Seq<char>, V)> {
    if keys_of(es).contains(k) {
        es.update(keys_of(es).index_of(k), (k, v))
    } else {
        es.push((k, v))
    }
}

/// `IndexMap::new`: an empty map.
#[verifier::external_body]
pub fn new_module_map() -> (m: IndexMap<String, Arc<ResolvedModule>>)
    ensures
        module_entries(m) == Seq::<(Seq<char>, Arc<ResolvedModule>)>::empty(),
{
    IndexMap::new()
}

/// `IndexMap::len`: the number of entries.
#[verifier::external_body]
pub fn module_map_len(m: &IndexMap<String, Arc<ResolvedModule>>) -> (n: usize)
    ensures
        n == module_entries(*m).len(),
{
    m.len()
}

/// `IndexMap::get`, with the value's `Arc` cloned: the value stored under `k`.
#[verifier::external_body]
pub fn module_map_get(m: &IndexMap<String, Arc<ResolvedModule>>, k: &str) -> (r: Option<Arc<ResolvedModule>>)
    ensures
        r == value_of(module_entries(*m), k@),
{
    m.get(k).cloned()
}

/// `IndexMap::get_index`: the key and (cloned) value of entry `i`.
#[verifier::external_body]
pub fn module_map_get_index(m: &IndexMap<String, Arc<ResolvedModule>>, i: usize) -> (r: (String, Arc<ResolvedModule>))
    requires
        i < module_entries(*m).len(),
    ensures
        (r.0@, r.1) == module_entries(*m)[i as int],
{
    let (k, v) = m.get_index(i).unwrap();
    (k.clone(), v.clone())
}

/// `IndexMap::insert`: an existing key keeps its place and takes the new
/// value; a new key goes last.
#[verifier::external_body]
pub fn module_map_insert(m: &mut IndexMap<String, Arc<ResolvedModule>>, k: String, v: Arc<ResolvedModule>)
    ensures
        module_entries(*final(m)) == inserted(module_entries(*old(m)), k@, v),
{
    m.insert(k, v);
}

/// `IndexMap::new`: an empty map.
#[verifier::external_body]
pub fn new_block_map() -> (m: IndexMap<String, Arc<BlockNode>>)
    ensures
        block_entries(m) == Seq::<(Seq<char>, Arc<BlockNode>)>::empty(),
{
    IndexMap::new()
}

/// `IndexMap::len`: the number of entries.
#[verifier::external_body]
pub fn block_map_len(m: &IndexMap<String, Arc<BlockNode>>) -> (n: usize)
    ensures
        n == block_entries(*m).len(),
{
    m.len()
}

/// `IndexMap::get`, with the value's `Arc` cloned: the value stored under `k`.
#[verifier::external_body]
pub fn block_map_get(m: &IndexMap<String, Arc<BlockNode>>, k: &str) -> (r: Option<Arc<BlockNode>>)
    ensures
        r == value_of(block_entries(*m), k@),
{
    m.get(k).cloned()
}

/// `IndexMap::get_index`: the key and (cloned) value of entry `i`.
#[verifier::external_body]
pub fn block_map_get_index(m: &IndexMap<String, Arc<BlockNode>>, i: usize) -> (r: (String, Arc<BlockNode>))
    requires
        i < block_entries(*m).len(),
    ensures
        (r.0@, r.1) == block_entries(*m)[i as int],
{
    let (k, v) = m.get_index(i).unwrap();
    (k.clone(), v.clone())
}

/// `IndexMap::insert`: an existing key keeps its place and takes the new
/// value; a new key goes last.
#[verifier::external_body]
pub fn block_map_insert(m: &mut IndexMap<String, Arc<BlockNode>>, k: String, v: Arc<BlockNode>)
    ensures
        block_entries(*final(m)) == inserted(block_entries(*old(m)), k@, v),
{
    m.insert(k, v);
}

/// `IndexSet::new`: an empty set.
#[verifier::external_body]
pub fn new_key_set() -> (s: IndexSet<String>)
    ensures
        set_items(s) == Seq::<Seq<char>>::empty(),
{
    IndexSet::new()
}

/// `IndexSet::len`: the number of items.
#[verifier::external_body]
pub fn key_set_len(s: &IndexSet<String>) -> (n: usize)
    ensures
        n == set_items(*s).len(),
{
    s.len()
}

/// `IndexSet::contains`: whether `k` is an item.
#[verifier::external_body]
pub fn key_set_contains(s: &IndexSet<String>, k: &str) -> (b: bool)
    ensures
        b == set_items(*s).contains(k@),
{
    s.contains(k)
}

/// `IndexSet::get_index`: item `i`, cloned.
#[verifier::external_body]
pub fn key_set_get_index(s: &IndexSet<String>, i: usize) -> (r: String)
    requires
        i < set_items(*s).len(),
    ensures
        r@ == set_items(*s)[i as int],
{
    s.get_index(i).unwrap().clone()
}

/// `IndexSet::insert`: a new item goes last and `true` is returned; an
/// existing one leaves the set as it was and `false` is returned.
#[verifier::external_body]
pub fn key_set_insert(s: &mut IndexSet<String>, k: String) -> (b: bool)
    ensures
        b == !set_items(*old(s)).contains(k@),
        set_items(*final(s)) == if b { set_items(*old(s)).push(k@) } else { set_items(*old(s)) },
{
    s.insert(k)
}

/// `IndexSet::pop`: removes and returns the last item, keeping the order of
/// the others; `None` on an empty set.
#[verifier::external_body]
pub fn key_set_pop(s: &mut IndexSet<String>) -> (r: Option<String>)
    ensures
        set_items(*old(s)).len() == 0 ==> r is None && set_items(*final(s)) == set_items(*old(s)),
        set_items(*old(s)).len() > 0 ==> (r matches Some(k) && k@ == set_items(*old(s)).last())
            && set_items(*final(s)) == set_items(*old(s)).drop_last(),
{
    s.pop()
}

/// The entries of a `HashMap` with text keys, as `HashMap::iter` walks
/// them, collected: each entry of the map once (keys distinct), by
/// reference, in the order the map is walked (which this contract leaves
/// open, as it depends on the map's random hasher).
#[verifier::external_body]
fn map_refs<'a, V>(m: &'a HashMap<String, V>) -> (r: Vec<(&'a String, &'a V)>)
    ensures
        forall|i: int, j: int| 0 <= i < j < r@.len() ==> r@[i].0@ != r@[j].0@,
        forall|i: int| 0 <= i < r@.len() ==> m@.contains_key(*(#[trigger] r@[i]).0) && m@[*r@[i].0] == *r@[i].1,
        forall|k: String| m@.contains_key(k) ==> exists|i: int| 0 <= i < r@.len() && *(#[trigger] r@[i]).0 == k,
        forall|i: int, k: String| #![trigger r@[i], m@.contains_key(k)] 0 <= i < r@.len() && m@.contains_key(k)
            && k@ == r@[i].0@ ==> k == *r@[i].0,
{
    m.iter().collect()
}

/// The entries of a map of runtime variables, each name once, each value a
/// copy of the map's.
pub fn value_entries(m: &HashMap<String, TemplateValue>) -> (r: Vec<(String, TemplateValue)>)
    ensures
        forall|i: int, j: int| 0 <= i < j < r@.len() ==> r@[i].0@ != r@[j].0@,
        forall|i: int| 0 <= i < r@.len() ==> m@.contains_key(#[trigger] r@[i].0) && m@[r@[i].0] == r@[i].1,
        forall|k: String| m@.contains_key(k) ==> exists|i: int| 0 <= i < r@.len() && #[trigger] r@[i].0 == k,
        forall|i: int, k: String| #![trigger r@[i], m@.contains_key(k)] 0 <= i < r@.len() && m@.contains_key(k)
            && k@ == r@[i].0@ ==> k == r@[i].0,
        crate::resolver::rv_vars(r@) == crate::map_vars(Some(*m)),
{
    let refs = map_refs(m);
    let mut r: Vec<(String, TemplateValue)> = Vec::new();
    let mut i: usize = 0;
    while i < refs.len()
        invariant
            i <= refs@.len(),
            r@.len() == i,
            forall|a: int, k: String| #![trigger refs@[a], m@.contains_key(k)] 0 <= a < refs@.len() && m@.contains_key(k)
                && k@ == refs@[a].0@ ==> k == *refs@[a].0,
            forall|a: int, b: int| 0 <= a < b < refs@.len() ==> refs@[a].0@ != refs@[b].0@,
            forall|a: int| 0 <= a < refs@.len() ==> m@.contains_key(*(#[trigger] refs@[a]).0) && m@[*refs@[a].0] == *refs@[a].1,
            forall|a: int| 0 <= a < i ==> #[trigger] r@[a].0 == *refs@[a].0 && r@[a].1 == *refs@[a].1,
        decreases refs@.len() - i,
    {
        let (k, v) = refs[i];
        let ghost before = r@;
        r.push((k.clone(), v.copy()));
        proof {
            assert forall|a: int| 0 <= a < i + 1 implies #[trigger] r@[a].0 == *refs@[a].0 && r@[a].1 == *refs@[a].1 by {
                if a < i {
                    assert(r@[a] == before[a]);
                }
            }
        }
        i = i + 1;
    }
    proof {
        assert forall|k: String| m@.contains_key(k) implies exists|a: int| 0 <= a < r@.len() && #[trigger] r@[a].0 == k by {
            let a = choose|a: int| 0 <= a < refs@.len() && *(#[trigger] refs@[a]).0 == k;
            assert(r@[a].0 == k);
        }
        assert forall|a: int| 0 <= a < r@.len() implies m@.contains_key(#[trigger] r@[a].0) && m@[r@[a].0] == r@[a].1 by {
            assert(refs@[a] == refs@[a]);
        }
    }
    proof {
        assert forall|q: Seq<char>| #[trigger] crate::resolver::rv_vars(r@)(q) == crate::map_vars(Some(*m))(q) by {
            if exists|i: int| 0 <= i < r@.len() && #[trigger] r@[i].0@ == q {
                let i = choose|i: int| 0 <= i < r@.len() && #[trigger] r@[i].0@ == q;
                assert(m@.contains_key(r@[i].0));
                let k = choose|k: String| m@.contains_key(k) && #[trigger] k@ == q;
                assert(k == *refs@[i].0);
            } else {
                if exists|k: String| m@.contains_key(k) && #[trigger] k@ == q {
                    let k = choose|k: String| m@.contains_key(k) && #[trigger] k@ == q;
                    let i = choose|i: int| 0 <= i < r@.len() && #[trigger] r@[i].0 == k;
                    assert(r@[i].0@ == q);
                }
            }
        }
        assert(crate::resolver::rv_vars(r@) =~= crate::map_vars(Some(*m)));
    }
    r
}

/// The entries of a map of texts, each name once, each text a copy of the
/// map's.
pub fn text_entries(m: &HashMap<String, String>) -> (r: Vec<(String, String)>)
    ensures
        forall|i: int, j: int| 0 <= i < j < r@.len() ==> r@[i].0@ != r@[j].0@,
        forall|i: int| 0 <= i < r@.len() ==> m@.contains_key(#[trigger] r@[i].0) && m@[r@[i].0] == r@[i].1,
        forall|k: String| m@.contains_key(k) ==> exists|i: int| 0 <= i < r@.len() && #[trigger] r@[i].0 == k,
{
    let refs = map_refs(m);
    let mut r: Vec<(String, String)> = Vec::new();
    let mut i: usize = 0;
    while i < refs.len()
        invariant
            i <= refs@.len(),
            r@.len() == i,
            forall|a: int, b: int| 0 <= a < b < refs@.len() ==> refs@[a].0@ != refs@[b].0@,
            forall|a: int| 0 <= a < refs@.len() ==> m@.contains_key(*(#[trigger] refs@[a]).0) && m@[*refs@[a].0] == *refs@[a].1,
            forall|a: int| 0 <= a < i ==> #[trigger] r@[a].0 == *refs@[a].0 && r@[a].1 == *refs@[a].1,
        decreases refs@.len() - i,
    {
        let (k, v) = refs[i];
        let ghost before = r@;
        r.push((k.clone(), v.clone()));
        proof {
            assert forall|a: int| 0 <= a < i + 1 implies #[trigger] r@[a].0 == *refs@[a].0 && r@[a].1 == *refs@[a].1 by {
                if a < i {
                    assert(r@[a] == before[a]);
                }
            }
        }
        i = i + 1;
    }
    proof {
        assert forall|k: String| m@.contains_key(k) implies exists|a: int| 0 <= a < r@.len() && #[trigger] r@[a].0 == k by {
            let a = choose|a: int| 0 <= a < refs@.len() && *(#[trigger] refs@[a]).0 == k;
            assert(r@[a].0 == k);
        }
        assert forall|a: int| 0 <= a < r@.len() implies m@.contains_key(#[trigger] r@[a].0) && m@[r@[a].0] == r@[a].1 by {
            assert(refs@[a] == refs@[a]);
        }
    }
    r
}

} // verus!
