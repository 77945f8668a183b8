//! The headless cycle: what a load of the database amounts to, and the
//! messages of its commits.

use crate::db::item_views;
use crate::map_session::{count_dependencies, dependency_count};
use crate::model::{has_id8, id8_of, ItemMeta, ItemView};
use crate::status::Status;
use crate::text::{join, same_text, texts};
use vstd::prelude::*;

verus! {

/// How many of the first `k` items are in default scope.
pub open spec fn scope_count(items: Seq<ItemView>, k: nat) -> nat
    decreases k,
{
    if k == 0 {
        0
    } else {
        scope_count(items, (k - 1) as nat) + if items[k - 1].status.in_scope() {
            1nat
        } else {
            0nat
        }
    }
}

/// Whether an item in default scope has this short id.
pub open spec fn in_scope_id8(items: Seq<ItemView>, id8: Seq<char>) -> bool {
    exists|i: int|
        0 <= i < items.len() && (#[trigger] items[i]).status.in_scope() && id8_of(items[i].id)
            == id8
}

/// How many of the first `k` dependencies are in default scope.
pub open spec fn scope_dependencies(items: Seq<ItemView>, deps: Seq<Seq<char>>, k: nat) -> nat
    decreases k,
{
    if k == 0 {
        0
    } else {
        scope_dependencies(items, deps, (k - 1) as nat) + if in_scope_id8(items, deps[k - 1]) {
            1nat
        } else {
            0nat
        }
    }
}

/// How many dependencies the first `k` items have between items in default
/// scope.
pub open spec fn scope_edges(items: Seq<ItemView>, k: nat) -> nat
    decreases k,
{
    if k == 0 {
        0
    } else {
        let item = items[k - 1];
        scope_edges(items, (k - 1) as nat) + if item.status.in_scope() {
            scope_dependencies(items, item.depends_on, item.depends_on.len())
        } else {
            0
        }
    }
}

/// What a load of the database amounts to.
#[derive(Debug, Clone, Copy, PartialEq, Eq)]
pub struct LoadReport {
    pub items: usize,
    /// Items in default scope.
    pub in_scope: usize,
    pub edges: u128,
    /// Edges between items in default scope.
    pub edges_in_scope: u128,
}

/// Whether the items in default scope have short ids.
pub open spec fn scope_ids_fit(items: Seq<ItemMeta>) -> bool {
    forall|i: int|
        0 <= i < items.len() && (#[trigger] items[i]).status.in_scope() ==> has_id8(items[i].id@)
}

fn has_in_scope(items: &Vec<ItemMeta>, id8: &str) -> (r: bool)
    requires
        scope_ids_fit(items@),
    ensures
        r == in_scope_id8(item_views(items@), id8@),
{
    let ghost all = item_views(items@);
    let mut i: usize = 0;
    while i < items.len()
        invariant
            i <= items@.len(),
            all == item_views(items@),
            scope_ids_fit(items@),
            forall|k: int|
                0 <= k < i ==> !((#[trigger] all[k]).status.in_scope() && id8_of(all[k].id)
                    == id8@),
        decreases items@.len() - i,
    {
        assert(all[i as int] == items@[i as int]@);
        if items[i].status.in_default_scope() && same_text(items[i].id8(), id8) {
            return true;
        }
        i += 1;
    }
    false
}

/// Count the items and edges of a database, in all and in default scope.
pub fn load_report(items: &Vec<ItemMeta>) -> (r: LoadReport)
    requires
        scope_ids_fit(items@),
    ensures
        r.items == items@.len(),
        r.in_scope == scope_count(item_views(items@), items@.len()),
        r.edges == dependency_count(item_views(items@), items@.len()),
        r.edges_in_scope == scope_edges(item_views(items@), items@.len()),
{
    let ghost all = item_views(items@);
    let total: usize = items.len();
    let mut in_scope: usize = 0;
    let mut edges_in_scope: u128 = 0;
    let mut i: usize = 0;
    while i < total
        invariant
            i <= total,
            total == items@.len(),
            all == item_views(items@),
            scope_ids_fit(items@),
            in_scope <= i,
            in_scope == scope_count(all, i as nat),
            edges_in_scope == scope_edges(all, i as nat),
            edges_in_scope <= i * 0xffff_ffff_ffff_ffff,
        decreases total - i,
    {
        let item = &items[i];
        assert(all[i as int] == item@);
        if item.status.in_default_scope() {
            in_scope += 1;
            let ghost deps = texts(item.depends_on@);
            let count: usize = item.depends_on.len();
            let mut found: usize = 0;
            let mut d: usize = 0;
            while d < count
                invariant
                    d <= count,
                    count == item.depends_on@.len(),
                    all == item_views(items@),
                    deps == texts(item.depends_on@),
                    scope_ids_fit(items@),
                    found <= d,
                    found == scope_dependencies(all, deps, d as nat),
                decreases count - d,
            {
                assert(deps[d as int] == item.depends_on@[d as int]@);
                if has_in_scope(items, item.depends_on[d].as_str()) {
                    found += 1;
                }
                d += 1;
            }
            proof {
                assert(i * 0xffff_ffff_ffff_ffff + 0xffff_ffff_ffff_ffff == (i + 1)
                    * 0xffff_ffff_ffff_ffff);
            }
            edges_in_scope = edges_in_scope + found as u128;
        }
        i += 1;
    }
    LoadReport { items: total, in_scope, edges: count_dependencies(items), edges_in_scope }
}

/// The commit message of a status change.
pub fn status_message(id8: &str, status: Status) -> (r: String)
    ensures
        r@ == "status: "@ + id8@ + " -> "@ + status.name(),
{
    let start = join("status: ", id8);
    let arrow = join(start.as_str(), " -> ");
    join(arrow.as_str(), status.as_str())
}

proof fn lemma_scope_dependencies_bound(items: Seq<ItemView>, deps: Seq<Seq<char>>, k: nat)
    ensures
        scope_dependencies(items, deps, k) <= k,
    decreases k,
{
    if k > 0 {
        lemma_scope_dependencies_bound(items, deps, (k - 1) as nat);
    }
}

/// What is counted in default scope is counted in all.
pub proof fn law_scope_is_part(items: Seq<ItemView>, k: nat)
    requires
        k <= items.len(),
    ensures
        scope_count(items, k) <= k,
        scope_edges(items, k) <= dependency_count(items, k),
    decreases k,
{
    if k > 0 {
        law_scope_is_part(items, (k - 1) as nat);
        let deps = items[k - 1].depends_on;
        lemma_scope_dependencies_bound(items, deps, deps.len());
    }
}

} // verus!
