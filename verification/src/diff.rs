//! The diff engine: compares two snapshots by item identity and classifies
//! every id as new, removed, or changed.
//!
//! Identity is the item id; change is full structural inequality, so a new
//! region price, a removed region price, a single price change, or a change
//! to title, description or image all classify as "changed".

use vstd::prelude::*;

use crate::item::{ItemModel, ShopItem};

verus! {

/// True when some item of the snapshot carries this id.
pub open spec fn has_id(items: Seq<ItemModel>, id: int) -> bool {
    exists|k: int| 0 <= k < items.len() && items[k].id == id
}

/// Ids strictly ascend through the item set: the snapshot order the merge
/// engine writes.
pub open spec fn sorted_by_id(s: Seq<ItemModel>) -> bool {
    forall|j: int, k: int| 0 <= j < k < s.len() ==> s[j].id < s[k].id
}

/// A strictly sorted item set has unique ids.
pub proof fn lemma_sorted_unique(s: Seq<ItemModel>)
    requires
        sorted_by_id(s),
    ensures
        unique_ids(s),
{
}

/// No two items of the snapshot share an id.
pub open spec fn unique_ids(items: Seq<ItemModel>) -> bool {
    forall|j: int, k: int| 0 <= j < k < items.len() ==> items[j].id != items[k].id
}

/// Every item of the snapshot is well formed.
pub open spec fn all_wf(items: Seq<ShopItem>) -> bool {
    forall|k: int| 0 <= k < items.len() ==> (#[trigger] items[k]).wf()
}

/// The item of the snapshot carrying this id. Meaningful only where ids are
/// unique and the id occurs.
pub open spec fn item_with(items: Seq<ItemModel>, id: int) -> ItemModel {
    items[choose|k: int| 0 <= k < items.len() && items[k].id == id]
}

/// Under unique ids, `item_with` returns exactly the occupant of the slot.
pub proof fn lemma_item_with_unique(items: Seq<ItemModel>, k: int)
    requires
        unique_ids(items),
        0 <= k < items.len(),
    ensures
        item_with(items, items[k].id) == items[k],
{
    let j = choose|j: int| 0 <= j < items.len() && items[j].id == items[k].id;
    assert(0 <= j < items.len() && items[j].id == items[k].id);
    if j != k {
        if j < k {
            assert(items[j].id != items[k].id);
        } else {
            assert(items[k].id != items[j].id);
        }
    }
}

/// The subsequence of `items`, in order, whose ids do not occur in `others`.
pub open spec fn spec_absent_from(items: Seq<ItemModel>, others: Seq<ItemModel>) -> Seq<ItemModel>
    decreases items.len(),
{
    if items.len() == 0 {
        Seq::empty()
    } else if !has_id(others, items.last().id) {
        spec_absent_from(items.drop_last(), others).push(items.last())
    } else {
        spec_absent_from(items.drop_last(), others)
    }
}

/// The items the new snapshot has and the old one has not.
pub open spec fn spec_added(old: Seq<ItemModel>, new: Seq<ItemModel>) -> Seq<ItemModel> {
    spec_absent_from(new, old)
}

/// The items the old snapshot has and the new one has not.
pub open spec fn spec_removed(old: Seq<ItemModel>, new: Seq<ItemModel>) -> Seq<ItemModel> {
    spec_absent_from(old, new)
}

/// The (old, new) pairs for ids present on both sides whose full structural
/// equality fails, in new-snapshot order.
pub open spec fn spec_changed(old: Seq<ItemModel>, new: Seq<ItemModel>) -> Seq<
    (ItemModel, ItemModel),
>
    decreases new.len(),
{
    if new.len() == 0 {
        Seq::empty()
    } else {
        let n = new.last();
        let pre = spec_changed(old, new.drop_last());
        if has_id(old, n.id) && item_with(old, n.id) != n {
            pre.push((item_with(old, n.id), n))
        } else {
            pre
        }
    }
}

proof fn lemma_absent_push(items: Seq<ItemModel>, others: Seq<ItemModel>, y: ItemModel)
    ensures
        spec_absent_from(items.push(y), others) == if !has_id(others, y.id) {
            spec_absent_from(items, others).push(y)
        } else {
            spec_absent_from(items, others)
        },
{
    assert(items.push(y).drop_last() =~= items);
    assert(items.push(y).last() == y);
}

proof fn lemma_changed_push(old: Seq<ItemModel>, new: Seq<ItemModel>, y: ItemModel)
    ensures
        spec_changed(old, new.push(y)) == if has_id(old, y.id) && item_with(old, y.id) != y {
            spec_changed(old, new).push((item_with(old, y.id), y))
        } else {
            spec_changed(old, new)
        },
{
    assert(new.push(y).drop_last() =~= new);
    assert(new.push(y).last() == y);
}

/// The structured classification of two snapshots' difference.
#[derive(Debug)]
pub struct ItemDiff {
    pub new_items: Vec<ShopItem>,
    pub deleted_items: Vec<ShopItem>,
    pub updated_items: Vec<(ShopItem, ShopItem)>,
}

impl ItemDiff {
    /// A diff is empty exactly when all three classifications are; an empty
    /// diff makes the cycle a no-op: no snapshot write, no notification.
    pub fn is_empty(&self) -> (r: bool)
        ensures
            r == (self.new_items@.len() == 0 && self.deleted_items@.len() == 0
                && self.updated_items@.len() == 0),
    {
        self.new_items.is_empty() && self.deleted_items.is_empty() && self.updated_items.is_empty()
    }
}

/// The index of the item carrying this id, if any.
fn find_by_id(items: &Vec<ShopItem>, id: usize) -> (r: Option<usize>)
    ensures
        r matches Some(k) ==> k < items@.len() && items.deep_view()[k as int].id == id,
        r is None ==> !has_id(items.deep_view(), id as int),
{
    let mut i: usize = 0;
    while i < items.len()
        invariant
            i <= items@.len(),
            forall|j: int| 0 <= j < i ==> items.deep_view()[j].id != id,
        decreases items@.len() - i,
    {
        if items[i].id == id {
            return Some(i);
        }
        i = i + 1;
    }
    None
}

/// Check what `compute_diff` demands of a snapshot, as a snapshot read back
/// from storage may not satisfy it: ids strictly ascending — hence unique —
/// and every item well formed.
pub fn check_snapshot(items: &Vec<ShopItem>) -> (r: bool)
    ensures
        r == (sorted_by_id(items.deep_view()) && all_wf(items@)),
        r ==> unique_ids(items.deep_view()),
{
    let ghost dv = items.deep_view();
    let n = items.len();
    let mut i: usize = 0;
    while i < n
        invariant
            n == items@.len(),
            dv == items.deep_view(),
            i <= n,
            forall|k: int| 0 <= k < i ==> (#[trigger] items@[k]).wf(),
        decreases n - i,
    {
        let it = &items[i];
        if !(it.prices.slot_count() == crate::region::REGION_COUNT && !it.prices.is_empty()) {
            return false;
        }
        i = i + 1;
    }
    let mut i: usize = 1;
    while i < n
        invariant
            n == items@.len(),
            dv == items.deep_view(),
            dv.len() == n,
            1 <= i || n == 0,
            i <= n || n == 0,
            forall|j: int, k: int| 0 <= j < k < i ==> dv[j].id < dv[k].id,
        decreases n - i,
    {
        if items[i - 1].id >= items[i].id {
            proof {
                assert(dv[i - 1].id >= dv[i as int].id);
                assert(!sorted_by_id(dv));
            }
            return false;
        }
        proof {
            assert(dv[i - 1].id < dv[i as int].id);
            assert forall|j: int, k: int| 0 <= j < k < i + 1 implies dv[j].id < dv[k].id by {
                if k == i && j < i - 1 {
                    assert(dv[j].id < dv[i - 1].id);
                }
            }
        }
        i = i + 1;
    }
    proof {
        if sorted_by_id(dv) {
            lemma_sorted_unique(dv);
        }
    }
    true
}

/// Compare two snapshots by id and classify: `new_items` are the new side's
/// ids absent from the old, `deleted_items` the old side's ids absent from
/// the new, and `updated_items` pairs the ids present on both sides whose
/// items are not structurally equal.
pub fn compute_diff(old_items: &Vec<ShopItem>, new_items: &Vec<ShopItem>) -> (diff: ItemDiff)
    requires
        all_wf(old_items@),
        all_wf(new_items@),
        unique_ids(old_items.deep_view()),
        unique_ids(new_items.deep_view()),
    ensures
        diff.new_items.deep_view() == spec_added(old_items.deep_view(), new_items.deep_view()),
        diff.deleted_items.deep_view() == spec_removed(
            old_items.deep_view(),
            new_items.deep_view(),
        ),
        diff.updated_items.deep_view() == spec_changed(
            old_items.deep_view(),
            new_items.deep_view(),
        ),
        all_wf(diff.new_items@),
        all_wf(diff.deleted_items@),
{
    let ghost old_dv = old_items.deep_view();
    let ghost new_dv = new_items.deep_view();

    let mut added: Vec<ShopItem> = Vec::new();
    let mut i: usize = 0;
    while i < new_items.len()
        invariant
            all_wf(new_items@),
            new_dv == new_items.deep_view(),
            old_dv == old_items.deep_view(),
            new_dv.len() == new_items@.len(),
            i <= new_items@.len(),
            added.deep_view() == spec_absent_from(new_dv.take(i as int), old_dv),
            all_wf(added@),
        decreases new_items@.len() - i,
    {
        proof {
            assert(new_dv.take(i + 1) =~= new_dv.take(i as int).push(new_dv[i as int]));
            lemma_absent_push(new_dv.take(i as int), old_dv, new_dv[i as int]);
        }
        let it = &new_items[i];
        if find_by_id(old_items, it.id).is_none() {
            added.push(it.duplicate());
            proof {
                assert(added.deep_view() =~= spec_absent_from(new_dv.take(i + 1), old_dv));
            }
        }
        i = i + 1;
    }
    proof {
        assert(new_dv.take(new_dv.len() as int) =~= new_dv);
    }

    let mut deleted: Vec<ShopItem> = Vec::new();
    let mut i: usize = 0;
    while i < old_items.len()
        invariant
            all_wf(old_items@),
            old_dv == old_items.deep_view(),
            new_dv == new_items.deep_view(),
            old_dv.len() == old_items@.len(),
            i <= old_items@.len(),
            deleted.deep_view() == spec_absent_from(old_dv.take(i as int), new_dv),
            all_wf(deleted@),
        decreases old_items@.len() - i,
    {
        proof {
            assert(old_dv.take(i + 1) =~= old_dv.take(i as int).push(old_dv[i as int]));
            lemma_absent_push(old_dv.take(i as int), new_dv, old_dv[i as int]);
        }
        let it = &old_items[i];
        if find_by_id(new_items, it.id).is_none() {
            deleted.push(it.duplicate());
            proof {
                assert(deleted.deep_view() =~= spec_absent_from(old_dv.take(i + 1), new_dv));
            }
        }
        i = i + 1;
    }
    proof {
        assert(old_dv.take(old_dv.len() as int) =~= old_dv);
    }

    let mut updated: Vec<(ShopItem, ShopItem)> = Vec::new();
    let mut i: usize = 0;
    while i < new_items.len()
        invariant
            all_wf(old_items@),
            all_wf(new_items@),
            unique_ids(old_dv),
            old_dv == old_items.deep_view(),
            new_dv == new_items.deep_view(),
            old_dv.len() == old_items@.len(),
            new_dv.len() == new_items@.len(),
            i <= new_items@.len(),
            updated.deep_view() == spec_changed(old_dv, new_dv.take(i as int)),
        decreases new_items@.len() - i,
    {
        proof {
            assert(new_dv.take(i + 1) =~= new_dv.take(i as int).push(new_dv[i as int]));
            lemma_changed_push(old_dv, new_dv.take(i as int), new_dv[i as int]);
        }
        let it = &new_items[i];
        match find_by_id(old_items, it.id) {
            Some(k) => {
                proof {
                    lemma_item_with_unique(old_dv, k as int);
                }
                let old_it = &old_items[k];
                if !old_it.equals(it) {
                    updated.push((old_it.duplicate(), it.duplicate()));
                    proof {
                        assert(updated.deep_view() =~= spec_changed(old_dv, new_dv.take(i + 1)));
                    }
                }
            },
            None => {},
        }
        i = i + 1;
    }
    proof {
        assert(new_dv.take(new_dv.len() as int) =~= new_dv);
    }

    ItemDiff { new_items: added, deleted_items: deleted, updated_items: updated }
}

/// Comparing a snapshot against itself yields the empty diff.
pub proof fn lemma_diff_reflexive(items: Seq<ItemModel>)
    requires
        unique_ids(items),
    ensures
        spec_added(items, items).len() == 0,
        spec_removed(items, items).len() == 0,
        spec_changed(items, items).len() == 0,
{
    lemma_absent_from_self(items, items);
    lemma_changed_self(items, items.len() as int);
    assert(items.take(items.len() as int) =~= items);
}

proof fn lemma_absent_from_self(items: Seq<ItemModel>, all: Seq<ItemModel>)
    requires
        forall|k: int| 0 <= k < items.len() ==> has_id(all, #[trigger] items[k].id),
    ensures
        spec_absent_from(items, all).len() == 0,
    decreases items.len(),
{
    if items.len() > 0 {
        assert(items.drop_last() =~= items.take(items.len() - 1));
        assert(forall|k: int|
            0 <= k < items.drop_last().len() ==> has_id(all, #[trigger] items.drop_last()[k].id));
        lemma_absent_from_self(items.drop_last(), all);
        assert(items.last() == items[items.len() - 1]);
        assert(has_id(all, items.last().id));
    }
}

proof fn lemma_changed_self(items: Seq<ItemModel>, n: int)
    requires
        unique_ids(items),
        0 <= n <= items.len(),
    ensures
        spec_changed(items, items.take(n)).len() == 0,
    decreases n,
{
    if n > 0 {
        lemma_changed_self(items, n - 1);
        assert(items.take(n).drop_last() =~= items.take(n - 1));
        assert(items.take(n).last() == items[n - 1]);
        lemma_item_with_unique(items, n - 1);
    }
}

/// Side-swap symmetry: the items added going from A to B are exactly the
/// items removed going from B to A, as sequences and hence as sets.
pub proof fn lemma_added_removed_swap(a: Seq<ItemModel>, b: Seq<ItemModel>)
    ensures
        spec_added(a, b) == spec_removed(b, a),
        spec_added(a, b).to_set() == spec_removed(b, a).to_set(),
{
}

proof fn lemma_absent_empty_covered(items: Seq<ItemModel>, others: Seq<ItemModel>)
    requires
        spec_absent_from(items, others).len() == 0,
    ensures
        forall|k: int| 0 <= k < items.len() ==> has_id(others, (#[trigger] items[k]).id),
    decreases items.len(),
{
    if items.len() > 0 {
        assert(has_id(others, items.last().id));
        lemma_absent_empty_covered(items.drop_last(), others);
        assert forall|k: int| 0 <= k < items.len() implies has_id(
            others,
            (#[trigger] items[k]).id,
        ) by {
            if k < items.len() - 1 {
                assert(items.drop_last()[k] == items[k]);
            }
        }
    }
}

proof fn lemma_changed_empty_agrees(old: Seq<ItemModel>, new: Seq<ItemModel>)
    requires
        spec_changed(old, new).len() == 0,
    ensures
        forall|k: int|
            0 <= k < new.len() && has_id(old, (#[trigger] new[k]).id) ==> item_with(
                old,
                new[k].id,
            ) == new[k],
    decreases new.len(),
{
    if new.len() > 0 {
        lemma_changed_empty_agrees(old, new.drop_last());
        assert forall|k: int|
            0 <= k < new.len() && has_id(old, (#[trigger] new[k]).id) implies item_with(
            old,
            new[k].id,
        ) == new[k] by {
            if k < new.len() - 1 {
                assert(new.drop_last()[k] == new[k]);
            }
        }
    }
}

proof fn lemma_sorted_same_ids(a: Seq<ItemModel>, b: Seq<ItemModel>)
    requires
        sorted_by_id(a),
        sorted_by_id(b),
        forall|k: int| 0 <= k < a.len() ==> has_id(b, (#[trigger] a[k]).id),
        forall|k: int| 0 <= k < b.len() ==> has_id(a, (#[trigger] b[k]).id),
    ensures
        a.len() == b.len(),
        forall|k: int| 0 <= k < a.len() ==> (#[trigger] a[k]).id == b[k].id,
    decreases a.len() + b.len(),
{
    if a.len() == 0 {
        if b.len() > 0 {
            assert(has_id(a, b[0].id));
        }
    } else if b.len() == 0 {
        assert(has_id(b, a[0].id));
    } else {
        let la = a.len() - 1;
        let lb = b.len() - 1;
        assert(has_id(b, a[la].id));
        let wa = choose|j: int| 0 <= j < b.len() && b[j].id == a[la].id;
        assert(a[la].id <= b[lb].id);
        assert(has_id(a, b[lb].id));
        let wb = choose|j: int| 0 <= j < a.len() && a[j].id == b[lb].id;
        assert(b[lb].id <= a[la].id);
        assert(a[la].id == b[lb].id);
        assert forall|k: int| 0 <= k < a.drop_last().len() implies has_id(
            b.drop_last(),
            (#[trigger] a.drop_last()[k]).id,
        ) by {
            assert(a.drop_last()[k] == a[k]);
            assert(has_id(b, a[k].id));
            let j = choose|j: int| 0 <= j < b.len() && b[j].id == a[k].id;
            assert(a[k].id < a[la].id);
            assert(j < lb);
            assert(b.drop_last()[j].id == a[k].id);
        }
        assert forall|k: int| 0 <= k < b.drop_last().len() implies has_id(
            a.drop_last(),
            (#[trigger] b.drop_last()[k]).id,
        ) by {
            assert(b.drop_last()[k] == b[k]);
            assert(has_id(a, b[k].id));
            let j = choose|j: int| 0 <= j < a.len() && a[j].id == b[k].id;
            assert(b[k].id < b[lb].id);
            assert(j < la);
            assert(a.drop_last()[j].id == b[k].id);
        }
        lemma_sorted_same_ids(a.drop_last(), b.drop_last());
        assert forall|k: int| 0 <= k < a.len() implies (#[trigger] a[k]).id == b[k].id by {
            if k < la {
                assert(a.drop_last()[k].id == b.drop_last()[k].id);
            }
        }
    }
}

/// An empty diff means the snapshots are equal: between two well-ordered
/// snapshots, nothing added, nothing removed and nothing changed holds
/// exactly of two identical item sequences. With `lemma_diff_reflexive` this
/// makes `is_empty` a faithful no-op test for the cycle.
pub proof fn lemma_empty_diff_means_equal(a: Seq<ItemModel>, b: Seq<ItemModel>)
    requires
        sorted_by_id(a),
        sorted_by_id(b),
        spec_added(a, b).len() == 0,
        spec_removed(a, b).len() == 0,
        spec_changed(a, b).len() == 0,
    ensures
        a == b,
{
    lemma_sorted_unique(a);
    lemma_absent_empty_covered(b, a);
    lemma_absent_empty_covered(a, b);
    lemma_sorted_same_ids(a, b);
    lemma_changed_empty_agrees(a, b);
    assert forall|k: int| 0 <= k < a.len() implies a[k] == b[k] by {
        assert(a[k].id == b[k].id);
        assert(has_id(a, b[k].id));
        lemma_item_with_unique(a, k);
        assert(item_with(a, b[k].id) == b[k]);
    }
    assert(a =~= b);
}

} // verus!
