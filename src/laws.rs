//! Properties of the history tree that hold across calls.
use vstd::prelude::*;
use crate::history::{
    HistoryTreeView, lemma_find_named, lemma_find_named_unique, lemma_go_up_wf,
    lemma_owner_slots_prefix, lemma_visit_wf, owner_slots,
};

verus! {

/// The state reached from `v` by a sequence of operations, where
/// `Some(name)` stands for a visit of `name` and `None` for going up.
pub open spec fn replay(v: HistoryTreeView, steps: Seq<Option<Seq<char>>>) -> HistoryTreeView
    decreases steps.len(),
{
    if steps.len() == 0 {
        v
    } else {
        let before = replay(v, steps.drop_last());
        match steps.last() {
            Some(name) => before.visit(name),
            None => before.go_up(),
        }
    }
}

/// Going up `k` times from `v`.
pub open spec fn go_up_times(v: HistoryTreeView, k: nat) -> HistoryTreeView
    decreases k,
{
    if k == 0 {
        v
    } else {
        go_up_times(v, (k - 1) as nat).go_up()
    }
}

/// Every state reached from a fresh tree is well-formed, and each
/// operation adds at most one entry.
pub proof fn law_replay_wf(root_name: Seq<char>, steps: Seq<Option<Seq<char>>>)
    requires
        steps.len() < usize::MAX,
    ensures
        replay(HistoryTreeView::initial(root_name), steps).wf(),
        replay(HistoryTreeView::initial(root_name), steps).entries.len() <= steps.len() + 1,
    decreases steps.len(),
{
    let init = HistoryTreeView::initial(root_name);
    if steps.len() == 0 {
        assert(init.entry_wf(0));
    } else {
        law_replay_wf(root_name, steps.drop_last());
        let before = replay(init, steps.drop_last());
        match steps.last() {
            Some(name) => lemma_visit_wf(before, name),
            None => lemma_go_up_wf(before),
        }
    }
}

/// After any sequence of operations from a fresh tree, visiting `name`
/// makes the current entry one named `name`.
pub proof fn law_visit_sets_name(root_name: Seq<char>, steps: Seq<Option<Seq<char>>>, name: Seq<char>)
    requires
        steps.len() + 1 < usize::MAX,
    ensures
        replay(HistoryTreeView::initial(root_name), steps.push(Some(name))).current_entry().name == name,
{
    law_replay_wf(root_name, steps);
    let before = replay(HistoryTreeView::initial(root_name), steps);
    assert(steps.push(Some(name)).drop_last() =~= steps);
    visit_lands_on_child(before, name);
}

/// After any sequence of operations from a fresh tree, visiting `name`
/// makes current a child of the entry that was current before.
pub proof fn law_visit_links_parent(root_name: Seq<char>, steps: Seq<Option<Seq<char>>>, name: Seq<char>)
    requires
        steps.len() + 1 < usize::MAX,
    ensures
        replay(HistoryTreeView::initial(root_name), steps.push(Some(name))).current_entry().parent
            == Some(replay(HistoryTreeView::initial(root_name), steps).current),
{
    law_replay_wf(root_name, steps);
    let before = replay(HistoryTreeView::initial(root_name), steps);
    assert(steps.push(Some(name)).drop_last() =~= steps);
    visit_lands_on_child(before, name);
}

proof fn visit_lands_on_child(v: HistoryTreeView, name: Seq<char>)
    requires
        v.wf(),
        v.entries.len() < usize::MAX,
    ensures
        v.visit(name).current_entry().name == name,
        v.visit(name).current_entry().parent == Some(v.current),
        v.visit(name).entries[v.current as int].children.contains(v.visit(name).current),
{
    let kids = v.current_entry().children;
    assert(v.entry_wf(v.current as int));
    lemma_find_named(v.entries, kids, name);
    lemma_visit_wf(v, name);
    if let Some(c) = find_named_of(v, name) {
        let j = choose|j: int| 0 <= j < kids.len() && kids[j] == c;
        assert(kids[j] < v.entries.len());
    } else {
        let w = v.visit(name);
        assert(w.entries[v.current as int].children[kids.len() as int] == w.current);
    }
}

spec fn find_named_of(v: HistoryTreeView, name: Seq<char>) -> Option<usize> {
    crate::history::find_named(v.entries, v.current_entry().children, name)
}

/// Visiting a name, going back up, and visiting it again creates no second
/// entry: the entry left has the same children after both visits, exactly
/// one of them named `name`, and the second visit lands where the first did.
pub proof fn law_revisit_creates_nothing(v: HistoryTreeView, name: Seq<char>)
    requires
        v.wf(),
        v.entries.len() < usize::MAX,
    ensures
        ({
            let once = v.visit(name);
            let twice = once.go_up().visit(name);
            let kids = once.entries[v.current as int].children;
            &&& twice.entries.len() == once.entries.len()
            &&& twice.entries[v.current as int].children == kids
            &&& twice.current == once.current
            &&& exists|j: int| 0 <= j < kids.len() && (#[trigger] once.entries[kids[j] as int]).name == name
            &&& forall|j: int, k: int|
                0 <= j < kids.len() && 0 <= k < kids.len() && once.entries[kids[j] as int].name == name
                    && once.entries[kids[k] as int].name == name ==> j == k
        }),
{
    let once = v.visit(name);
    visit_lands_on_child(v, name);
    lemma_visit_wf(v, name);
    let up = once.go_up();
    assert(up.current == v.current);
    lemma_go_up_wf(once);
    let kids = once.entries[v.current as int].children;
    let j = choose|j: int| 0 <= j < kids.len() && kids[j] == once.current;
    assert(once.entries[kids[j] as int].name == name);
    lemma_find_named_unique(up, v.current as int, j);
    assert(once.entry_wf(v.current as int));
}

/// After any sequence of operations from a fresh tree, going up once makes
/// the parent of the current entry current, or stays at the root.
pub proof fn law_go_up_moves_to_parent(root_name: Seq<char>, steps: Seq<Option<Seq<char>>>)
    requires
        steps.len() + 1 < usize::MAX,
    ensures
        ({
            let before = replay(HistoryTreeView::initial(root_name), steps);
            let after = replay(HistoryTreeView::initial(root_name), steps.push(None));
            &&& before.current != 0 ==> before.current_entry().parent == Some(after.current)
            &&& before.current == 0 ==> after == before
            &&& after.entries == before.entries
        }),
{
    law_replay_wf(root_name, steps);
    let before = replay(HistoryTreeView::initial(root_name), steps);
    assert(steps.push(None).drop_last() =~= steps);
    assert(before.entry_wf(before.current as int));
}

/// A visit followed by going up returns to the entry visited from.
pub proof fn law_visit_then_up_returns(v: HistoryTreeView, name: Seq<char>)
    requires
        v.wf(),
        v.entries.len() < usize::MAX,
    ensures
        v.visit(name).go_up().current == v.current,
{
    visit_lands_on_child(v, name);
}

/// Going up any number of times from the root stays at the root and
/// changes nothing.
pub proof fn law_root_floor(v: HistoryTreeView, k: nat)
    requires
        v.wf(),
        v.current == 0,
    ensures
        go_up_times(v, k) == v,
    decreases k,
{
    assert(v.entry_wf(0));
    if k > 0 {
        law_root_floor(v, (k - 1) as nat);
    }
}

/// After any sequence of operations from a fresh tree, every entry but the
/// root is owned by exactly one child-list slot, its parent's, and the root
/// by none.
pub proof fn law_single_owner(root_name: Seq<char>, steps: Seq<Option<Seq<char>>>, id: usize)
    requires
        steps.len() < usize::MAX,
    ensures
        ({
            let v = replay(HistoryTreeView::initial(root_name), steps);
            &&& 0 < id < v.entries.len() ==> owner_slots(v.entries, id) == 1
            &&& id == 0 ==> owner_slots(v.entries, id) == 0
        }),
{
    law_replay_wf(root_name, steps);
    let v = replay(HistoryTreeView::initial(root_name), steps);
    lemma_owner_slots_prefix(v, id, v.entries.len() as int);
    assert(v.entries.take(v.entries.len() as int) =~= v.entries);
    if 0 < id < v.entries.len() {
        assert(v.entry_wf(id as int));
    }
}

} // verus!
