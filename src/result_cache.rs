//! The result cache: a concurrent map from node id to result, held in a
//! `dashmap::DashMap`.
use crate::graph_executor::ExecutionResult;
use dashmap::DashMap;
use vstd::prelude::*;

verus! {

/// What the result cache holds, by node id.
pub uninterp spec fn results_of(m: DashMap<String, ExecutionResult>) -> Map<
    Seq<char>,
    ExecutionResult,
>;

/// Declares `dashmap::DashMap`, which holds the result cache.
#[verifier::external_type_specification]
#[verifier::external_body]
#[verifier::reject_recursive_types(K)]
#[verifier::reject_recursive_types(V)]
#[verifier::reject_recursive_types(S)]
pub struct ExDashMap<K, V, S>(DashMap<K, V, S>);

/// Relies on `DashMap::new`: a map with no entries.
#[verifier::external_body]
pub(crate) fn results_new() -> (m: DashMap<String, ExecutionResult>)
    ensures
        results_of(m) =~= Map::empty(),
{
    DashMap::new()
}

/// Relies on `DashMap::get`: the entry under `k`, if any, copied out.
#[verifier::external_body]
pub(crate) fn results_get(m: &DashMap<String, ExecutionResult>, k: &str) -> (r: Option<ExecutionResult>)
    ensures
        r == (if results_of(*m).contains_key(k@) {
            Some(results_of(*m)[k@])
        } else {
            None
        }),
{
    m.get(k).map(|e| e.value().clone())
}

/// Relies on `DashMap::insert`: `v` is stored under `k`, replacing any entry.
#[verifier::external_body]
pub(crate) fn results_insert(m: &mut DashMap<String, ExecutionResult>, k: String, v: ExecutionResult)
    ensures
        results_of(*final(m)) == results_of(*old(m)).insert(k@, v),
{
    m.insert(k, v);
}

/// Relies on `DashMap::clear`: every entry is removed.
#[verifier::external_body]
pub(crate) fn results_clear(m: &mut DashMap<String, ExecutionResult>)
    ensures
        results_of(*final(m)) =~= Map::empty(),
{
    m.clear();
}

} // verus!
