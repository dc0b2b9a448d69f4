//! What a query and a walk of the persisted graph hand out.

use crate::models::cache_loader::{load_lazy, NodeRegistry, MAX_LOADS};
use crate::models::common::LoadError;
use crate::models::lazy_load::{EagerLazyItem, LazyItem, LazyItemId};
use crate::models::node_arena::lazy_offset;
use crate::models::types::{CosineSimilarity, FileOffset, VectorId, VectorIdView};
use vstd::prelude::*;

verus! {

/// The id of the root vector, which no result names.
pub open spec fn root_id() -> VectorIdView {
    VectorIdView::Int(-1i32)
}

/// The id of result `i` occurs in an earlier result.
pub open spec fn seen_before<T>(results: Seq<(VectorIdView, T)>, i: int) -> bool {
    exists|j: int| 0 <= j < i && (#[trigger] results[j]).0 == results[i].0
}

/// The first `n` results without the root vector and without every result
/// whose id occurred before, in their order.
pub open spec fn deduplicated<T>(results: Seq<(VectorIdView, T)>, n: int) -> Seq<(VectorIdView, T)>
    decreases n,
{
    if n <= 0 {
        Seq::empty()
    } else {
        let before = deduplicated(results, n - 1);
        if results[n - 1].0 == root_id() || seen_before(results, n - 1) {
            before
        } else {
            before.push(results[n - 1])
        }
    }
}

/// The results as contracts see them.
pub open spec fn result_views<T>(results: Seq<(VectorId, T)>) -> Seq<(VectorIdView, T)> {
    results.map_values(|r: (VectorId, T)| (r.0@, r.1))
}

/// Drops the root vector and every result whose id occurred before, and
/// keeps the order of the rest.
pub fn remove_duplicates_and_filter<T: Copy>(input: Option<Vec<(VectorId, T)>>) -> (output: Option<
    Vec<(VectorId, T)>,
>)
    ensures
        input is None ==> output is None,
        input matches Some(results) ==> output is Some && result_views(output->Some_0@)
            == deduplicated(result_views(results@), results@.len() as int),
{
    let results = match input {
        None => {
            return None;
        },
        Some(results) => results,
    };
    let ghost views = result_views(results@);
    let root = VectorId::Int(-1);
    let mut unique: Vec<(VectorId, T)> = Vec::new();
    let n: usize = results.len();
    let mut i: usize = 0;
    assert(result_views(unique@) =~= deduplicated(views, 0));
    while i < n
        invariant
            i <= n,
            n == results@.len(),
            views == result_views(results@),
            root@ == root_id(),
            result_views(unique@) == deduplicated(views, i as int),
        decreases n - i,
    {
        let id = &results[i].0;
        assert(views[i as int].0 == id@);
        let mut found: bool = id.same_as(&root);
        let mut j: usize = 0;
        while j < i && !found
            invariant
                j <= i,
                i < n,
                n == results@.len(),
                views == result_views(results@),
                id@ == views[i as int].0,
                found ==> id@ == root_id() || seen_before(views, i as int),
                !found ==> id@ != root_id() && forall|k: int|
                    0 <= k < j ==> (#[trigger] views[k]).0 != id@,
            decreases i - j,
        {
            assert(views[j as int].0 == results[j as int].0@);
            if results[j].0.same_as(id) {
                found = true;
            }
            j = j + 1;
        }
        let ghost before = result_views(unique@);
        if !found {
            unique.push((id.duplicate(), results[i].1));
            assert(result_views(unique@) =~= before.push(views[i as int]));
        }
        i = i + 1;
    }
    Some(unique)
}

/// The neighbours of a node as a walk of the file sees them: the offset of
/// each, where it has one, and the similarity.
pub open spec fn neighbor_offsets(
    offsets: Seq<Option<FileOffset>>,
    neighbors: Seq<(LazyItemId, EagerLazyItem)>,
) -> Seq<(Option<FileOffset>, CosineSimilarity)> {
    neighbors.map_values(
        |e: (LazyItemId, EagerLazyItem)| (lazy_offset(offsets, e.1.1), e.1.0),
    )
}

/// Loads the node at `offset`, unless it is loaded, and lists its
/// neighbours in the order of insertion. An offset that gives no node,
/// the absent one, has no neighbours.
pub fn fetch_neighbors(cache: &mut NodeRegistry, offset: FileOffset) -> (r: Result<
    Vec<(Option<FileOffset>, CosineSimilarity)>,
    LoadError,
>)
    requires
        old(cache).wf(),
    ensures
        final(cache).wf(),
        final(cache)@.bytes == old(cache)@.bytes,
        old(cache).consistent() && r is Ok ==> final(cache).consistent(),
        ({
            let spec = load_lazy(old(cache)@.bytes, old(cache)@.at_rest(), offset, MAX_LOADS);
            match spec.0 {
                Ok(item) => {
                    &&& r is Ok
                    &&& final(cache)@ == old(cache)@.after(spec.1)
                    &&& r->Ok_0@ == if item.data() is Some && item.data().unwrap()
                        < spec.1.nodes.len() {
                        neighbor_offsets(
                            spec.1.offsets,
                            spec.1.nodes[item.data().unwrap() as int].neighbors,
                        )
                    } else {
                        Seq::empty()
                    }
                },
                Err(e) => r matches Err(x) && x == e,
            }
        }),
{
    let item: LazyItem = match cache.load_item(offset) {
        Err(e) => {
            return Err(e);
        },
        Ok(item) => item,
    };
    let mut out: Vec<(Option<FileOffset>, CosineSimilarity)> = Vec::new();
    if let Some(handle) = item.get_data() {
        if handle < cache.arena.len() {
            let neighbors = cache.node(handle).get_neighbors().iter();
            let ghost all = cache@.arena.nodes[handle as int].neighbors;
            let ghost table = cache@.arena.offsets;
            let n: usize = neighbors.len();
            let mut i: usize = 0;
            while i < n
                invariant
                    i <= n,
                    n == neighbors@.len(),
                    n == all.len(),
                    neighbors@ == all.map_values(|e: (LazyItemId, EagerLazyItem)| e.1),
                    cache.wf(),
                    table == cache@.arena.offsets,
                    out@ == neighbor_offsets(table, all.subrange(0, i as int)),
                decreases n - i,
            {
                let neighbor: EagerLazyItem = neighbors[i];
                out.push((neighbor.1.get_offset(&cache.arena), neighbor.0));
                i = i + 1;
                assert(out@ =~= neighbor_offsets(table, all.subrange(0, i as int)));
            }
            assert(all.subrange(0, n as int) =~= all);
        }
    }
    Ok(out)
}

} // verus!
