//! The region merge engine: reconciles the per-region scrapes of one cycle
//! into a single canonical item set.
//!
//! Regions are processed in the fixed enumeration order. The first region
//! that lists an id supplies the item's non-price fields; every region that
//! lists the id contributes its own price to the item's price map, with a
//! later occurrence of the same (region, id) pair overwriting an earlier one.
//! The result is ordered by id for determinism.

use vstd::prelude::*;

use crate::diff::{has_id, lemma_sorted_unique, sorted_by_id, unique_ids};
use crate::item::{ItemModel, RawItem, RawModel, ShopItem};
use crate::region::{
    lemma_region_index_bijective, spec_region_index, spec_region_of_index, Region, REGION_COUNT,
};

verus! {

/// One region's raw scrape: the item records its catalog page listed.
pub struct RegionScrape {
    pub region: Region,
    pub items: Vec<RawItem>,
}

/// The mathematical value of one region's raw scrape.
pub ghost struct ScrapeModel {
    pub region: Region,
    pub items: Seq<RawModel>,
}

impl DeepView for RegionScrape {
    type V = ScrapeModel;

    open spec fn deep_view(&self) -> ScrapeModel {
        ScrapeModel { region: self.region, items: self.items.deep_view() }
    }
}

/// True when some record of this raw scrape carries the id.
pub open spec fn items_contain(items: Seq<RawModel>, id: int) -> bool {
    exists|i: int| 0 <= i < items.len() && items[i].id == id
}

/// True when any region's scrape lists the id.
pub open spec fn scrapes_contain(scr: Seq<ScrapeModel>, id: int) -> bool
    decreases scr.len(),
{
    if scr.len() == 0 {
        false
    } else {
        scrapes_contain(scr.drop_last(), id) || items_contain(scr.last().items, id)
    }
}

/// The price of the last record in a raw scrape carrying the id: within one
/// region, a later occurrence of an id overwrites an earlier one.
pub open spec fn last_price_of(items: Seq<RawModel>, id: int) -> Option<u32>
    decreases items.len(),
{
    if items.len() == 0 {
        None
    } else if items.last().id == id {
        Some(items.last().price)
    } else {
        last_price_of(items.drop_last(), id)
    }
}

/// The price the merge gives an id in a region: the last processed scrape
/// entry for that region that lists the id wins.
pub open spec fn scraped_price(scr: Seq<ScrapeModel>, rx: Region, id: int) -> Option<u32>
    decreases scr.len(),
{
    if scr.len() == 0 {
        None
    } else if scr.last().region == rx && last_price_of(scr.last().items, id) is Some {
        last_price_of(scr.last().items, id)
    } else {
        scraped_price(scr.drop_last(), rx, id)
    }
}

/// The first record of a raw scrape carrying the id.
pub open spec fn first_raw_in(items: Seq<RawModel>, id: int) -> Option<RawModel>
    decreases items.len(),
{
    if items.len() == 0 {
        None
    } else if first_raw_in(items.drop_last(), id) is Some {
        first_raw_in(items.drop_last(), id)
    } else if items.last().id == id {
        Some(items.last())
    } else {
        None
    }
}

/// The first record across all scrapes carrying the id: the region that first
/// introduces an id supplies the item's non-price fields.
pub open spec fn first_raw(scr: Seq<ScrapeModel>, id: int) -> Option<RawModel>
    decreases scr.len(),
{
    if scr.len() == 0 {
        None
    } else if first_raw(scr.drop_last(), id) is Some {
        first_raw(scr.drop_last(), id)
    } else {
        first_raw_in(scr.last().items, id)
    }
}

/// An item's non-price fields are those of the first raw record of its id.
pub open spec fn fields_from_first(m: ItemModel, scr: Seq<ScrapeModel>) -> bool {
    &&& first_raw(scr, m.id) matches Some(fr)
    &&& m.title == first_raw(scr, m.id).unwrap().title
    &&& m.description == first_raw(scr, m.id).unwrap().description
    &&& m.image_url == first_raw(scr, m.id).unwrap().image_url
    &&& m.image_id == first_raw(scr, m.id).unwrap().image_id
}

/// The full contract between a merged item set and the scrapes it came from:
/// sorted by id; exactly the scraped ids; non-price fields from the first
/// record of each id; each region's price slot as `scraped_price` gives it.
pub open spec fn merged_wrt(out: Seq<ItemModel>, scr: Seq<ScrapeModel>) -> bool {
    &&& sorted_by_id(out)
    &&& forall|k: int| 0 <= k < out.len() ==> (#[trigger] out[k]).prices.len() == REGION_COUNT
    &&& forall|k: int| 0 <= k < out.len() ==> scrapes_contain(scr, (#[trigger] out[k]).id)
    &&& forall|id: int| #[trigger] scrapes_contain(scr, id) ==> has_id(out, id)
    &&& forall|k: int| 0 <= k < out.len() ==> fields_from_first(#[trigger] out[k], scr)
    &&& forall|k: int, ri: int|
        0 <= k < out.len() && 0 <= ri < REGION_COUNT ==> (#[trigger] out[k].prices[ri])
            == scraped_price(scr, spec_region_of_index(ri), out[k].id)
}

proof fn lemma_items_contain_push(items: Seq<RawModel>, y: RawModel, id: int)
    ensures
        items_contain(items.push(y), id) == (items_contain(items, id) || y.id == id),
{
    if items_contain(items, id) {
        let i = choose|i: int| 0 <= i < items.len() && items[i].id == id;
        assert(items.push(y)[i].id == id);
    }
    if y.id == id {
        assert(items.push(y)[items.len() as int].id == id);
    }
    if items_contain(items.push(y), id) {
        let i = choose|i: int| 0 <= i < items.push(y).len() && items.push(y)[i].id == id;
        if i < items.len() {
            assert(items[i].id == id);
        }
    }
}

proof fn lemma_contain_step(base: Seq<ScrapeModel>, r: Region, its: Seq<RawModel>, y: RawModel, id: int)
    ensures
        scrapes_contain(base.push(ScrapeModel { region: r, items: its.push(y) }), id) == (
        scrapes_contain(base.push(ScrapeModel { region: r, items: its }), id) || y.id == id),
{
    let prev = base.push(ScrapeModel { region: r, items: its });
    let next = base.push(ScrapeModel { region: r, items: its.push(y) });
    assert(prev.drop_last() =~= base);
    assert(next.drop_last() =~= base);
    lemma_items_contain_push(its, y, id);
}

proof fn lemma_price_step(
    base: Seq<ScrapeModel>,
    r: Region,
    its: Seq<RawModel>,
    y: RawModel,
    rx: Region,
    id: int,
)
    ensures
        scraped_price(base.push(ScrapeModel { region: r, items: its.push(y) }), rx, id) == if rx
            == r && id == y.id {
            Some(y.price)
        } else {
            scraped_price(base.push(ScrapeModel { region: r, items: its }), rx, id)
        },
{
    let prev = base.push(ScrapeModel { region: r, items: its });
    let next = base.push(ScrapeModel { region: r, items: its.push(y) });
    assert(prev.drop_last() =~= base);
    assert(next.drop_last() =~= base);
    assert(its.push(y).drop_last() =~= its);
}

proof fn lemma_first_raw_in_push(items: Seq<RawModel>, y: RawModel, id: int)
    ensures
        first_raw_in(items.push(y), id) == if first_raw_in(items, id) is Some {
            first_raw_in(items, id)
        } else if y.id == id {
            Some(y)
        } else {
            None::<RawModel>
        },
{
    assert(items.push(y).drop_last() =~= items);
}

proof fn lemma_first_raw_step(
    base: Seq<ScrapeModel>,
    r: Region,
    its: Seq<RawModel>,
    y: RawModel,
    id: int,
)
    ensures
        first_raw(base.push(ScrapeModel { region: r, items: its.push(y) }), id) == if first_raw(
            base.push(ScrapeModel { region: r, items: its }),
            id,
        ) is Some {
            first_raw(base.push(ScrapeModel { region: r, items: its }), id)
        } else if y.id == id {
            Some(y)
        } else {
            None::<RawModel>
        },
{
    let prev = base.push(ScrapeModel { region: r, items: its });
    let next = base.push(ScrapeModel { region: r, items: its.push(y) });
    assert(prev.drop_last() =~= base);
    assert(next.drop_last() =~= base);
    lemma_first_raw_in_push(its, y, id);
}

proof fn lemma_first_raw_in_iff_contain(items: Seq<RawModel>, id: int)
    ensures
        (first_raw_in(items, id) is Some) == items_contain(items, id),
        first_raw_in(items, id) matches Some(fr) ==> fr.id == id,
    decreases items.len(),
{
    if items.len() > 0 {
        lemma_first_raw_in_iff_contain(items.drop_last(), id);
        if items_contain(items.drop_last(), id) {
        } else if items.last().id == id {
            assert(items[items.len() - 1].id == id);
        } else {
            if items_contain(items, id) {
                let i = choose|i: int| 0 <= i < items.len() && items[i].id == id;
                if i < items.len() - 1 {
                    assert(items.drop_last()[i].id == id);
                }
            }
        }
    }
}

/// An id occurs in the scrapes exactly when it has a first raw record.
proof fn lemma_first_raw_iff_contain(scr: Seq<ScrapeModel>, id: int)
    ensures
        (first_raw(scr, id) is Some) == scrapes_contain(scr, id),
        first_raw(scr, id) matches Some(fr) ==> fr.id == id,
    decreases scr.len(),
{
    if scr.len() > 0 {
        lemma_first_raw_iff_contain(scr.drop_last(), id);
        lemma_first_raw_in_iff_contain(scr.last().items, id);
    }
}

proof fn lemma_last_price_some_contain(items: Seq<RawModel>, id: int)
    ensures
        last_price_of(items, id) is Some ==> items_contain(items, id),
    decreases items.len(),
{
    if items.len() > 0 {
        lemma_last_price_some_contain(items.drop_last(), id);
        if items.last().id == id {
            assert(items[items.len() - 1].id == id);
        } else if last_price_of(items.drop_last(), id) is Some {
            let i = choose|i: int|
                0 <= i < items.drop_last().len() && items.drop_last()[i].id == id;
            assert(items[i].id == id);
        }
    }
}

/// A region price exists only for ids the scrapes list.
proof fn lemma_price_some_contain(scr: Seq<ScrapeModel>, rx: Region, id: int)
    ensures
        scraped_price(scr, rx, id) is Some ==> scrapes_contain(scr, id),
    decreases scr.len(),
{
    if scr.len() > 0 {
        lemma_price_some_contain(scr.drop_last(), rx, id);
        lemma_last_price_some_contain(scr.last().items, id);
    }
}

proof fn lemma_step_update(
    out: Seq<ItemModel>,
    base: Seq<ScrapeModel>,
    r: Region,
    its: Seq<RawModel>,
    y: RawModel,
    k: int,
)
    requires
        merged_wrt(out, base.push(ScrapeModel { region: r, items: its })),
        0 <= k < out.len(),
        out[k].id == y.id,
    ensures
        merged_wrt(
            out.update(
                k,
                ItemModel {
                    prices: out[k].prices.update(spec_region_index(r), Some(y.price)),
                    ..out[k]
                },
            ),
            base.push(ScrapeModel { region: r, items: its.push(y) }),
        ),
{
    let prev = base.push(ScrapeModel { region: r, items: its });
    let next = base.push(ScrapeModel { region: r, items: its.push(y) });
    let m = ItemModel {
        prices: out[k].prices.update(spec_region_index(r), Some(y.price)),
        ..out[k]
    };
    let out2 = out.update(k, m);
    lemma_region_index_bijective();
    assert forall|id: int| #[trigger] scrapes_contain(next, id) implies has_id(out2, id) by {
        lemma_contain_step(base, r, its, y, id);
        if scrapes_contain(prev, id) {
            let q = choose|q: int| 0 <= q < out.len() && out[q].id == id;
            assert(out2[q].id == id);
        } else {
            assert(out2[k].id == id);
        }
    }
    assert forall|q: int| 0 <= q < out2.len() implies scrapes_contain(
        next,
        (#[trigger] out2[q]).id,
    ) by {
        lemma_contain_step(base, r, its, y, out2[q].id);
    }
    assert forall|q: int| 0 <= q < out2.len() implies fields_from_first(
        #[trigger] out2[q],
        next,
    ) by {
        lemma_first_raw_step(base, r, its, y, out2[q].id);
        if out2[q].id == y.id {
            assert(q == k);
            lemma_first_raw_iff_contain(prev, y.id);
        }
    }
    assert forall|q: int, ri: int|
        0 <= q < out2.len() && 0 <= ri < REGION_COUNT implies (#[trigger] out2[q].prices[ri])
        == scraped_price(next, spec_region_of_index(ri), out2[q].id) by {
        let rx = spec_region_of_index(ri);
        lemma_price_step(base, r, its, y, rx, out2[q].id);
        if q == k {
            if ri == spec_region_index(r) {
                assert(rx == r);
            } else {
                assert(rx != r);
            }
        } else {
            assert(out2[q].id != y.id);
        }
    }
}

proof fn lemma_step_insert(
    out: Seq<ItemModel>,
    base: Seq<ScrapeModel>,
    r: Region,
    its: Seq<RawModel>,
    y: RawModel,
    p: int,
    m: ItemModel,
)
    requires
        merged_wrt(out, base.push(ScrapeModel { region: r, items: its })),
        !has_id(out, y.id),
        0 <= p <= out.len(),
        forall|q: int| 0 <= q < p ==> out[q].id < y.id,
        forall|q: int| p <= q < out.len() ==> out[q].id > y.id,
        m.id == y.id,
        m.title == y.title,
        m.description == y.description,
        m.image_url == y.image_url,
        m.image_id == y.image_id,
        m.prices == Seq::new(REGION_COUNT as nat, |i: int| Option::<u32>::None).update(
            spec_region_index(r),
            Some(y.price),
        ),
    ensures
        merged_wrt(out.insert(p, m), base.push(ScrapeModel { region: r, items: its.push(y) })),
{
    let prev = base.push(ScrapeModel { region: r, items: its });
    let next = base.push(ScrapeModel { region: r, items: its.push(y) });
    let out2 = out.insert(p, m);
    lemma_region_index_bijective();
    assert(!scrapes_contain(prev, y.id));
    lemma_first_raw_iff_contain(prev, y.id);
    assert forall|j: int, q: int| 0 <= j < q < out2.len() implies out2[j].id < out2[q].id by {
        if j < p {
            assert(out2[j] == out[j]);
        }
    }
    assert forall|id: int| #[trigger] scrapes_contain(next, id) implies has_id(out2, id) by {
        lemma_contain_step(base, r, its, y, id);
        if scrapes_contain(prev, id) {
            let q = choose|q: int| 0 <= q < out.len() && out[q].id == id;
            if q < p {
                assert(out2[q].id == id);
            } else {
                assert(out2[q + 1].id == id);
            }
        } else {
            assert(out2[p].id == id);
        }
    }
    assert forall|q: int| 0 <= q < out2.len() implies scrapes_contain(
        next,
        (#[trigger] out2[q]).id,
    ) by {
        lemma_contain_step(base, r, its, y, out2[q].id);
        if q != p {
            let q0: int = if q < p {
                q
            } else {
                q - 1
            };
            assert(out2[q] == out[q0]);
        }
    }
    assert forall|q: int| 0 <= q < out2.len() implies fields_from_first(
        #[trigger] out2[q],
        next,
    ) by {
        lemma_first_raw_step(base, r, its, y, out2[q].id);
        if q != p {
            let q0: int = if q < p {
                q
            } else {
                q - 1
            };
            assert(out2[q] == out[q0]);
            assert(out2[q].id != y.id);
        }
    }
    assert forall|q: int, ri: int|
        0 <= q < out2.len() && 0 <= ri < REGION_COUNT implies (#[trigger] out2[q].prices[ri])
        == scraped_price(next, spec_region_of_index(ri), out2[q].id) by {
        let rx = spec_region_of_index(ri);
        lemma_price_step(base, r, its, y, rx, out2[q].id);
        if q == p {
            if ri != spec_region_index(r) {
                assert(rx != r);
                lemma_price_some_contain(prev, rx, y.id);
                assert(m.prices[ri] is None);
            }
        } else {
            let q0: int = if q < p {
                q
            } else {
                q - 1
            };
            assert(out2[q] == out[q0]);
            assert(out2[q].id != y.id);
        }
    }
}

/// Each region appears at most once in the scrape list.
pub open spec fn distinct_regions(scr: Seq<ScrapeModel>) -> bool {
    forall|j: int, k: int| 0 <= j < k < scr.len() ==> scr[j].region != scr[k].region
}

proof fn lemma_no_region_price(scr: Seq<ScrapeModel>, rx: Region, id: int)
    requires
        forall|j: int| 0 <= j < scr.len() ==> (#[trigger] scr[j]).region != rx,
    ensures
        scraped_price(scr, rx, id) is None,
    decreases scr.len(),
{
    if scr.len() > 0 {
        assert(scr.last() == scr[scr.len() - 1]);
        assert(forall|j: int|
            0 <= j < scr.drop_last().len() ==> (#[trigger] scr.drop_last()[j]).region != rx);
        lemma_no_region_price(scr.drop_last(), rx, id);
    }
}

proof fn lemma_price_by_entry(scr: Seq<ScrapeModel>, rx: Region, id: int, j: int)
    requires
        distinct_regions(scr),
        0 <= j < scr.len(),
        scr[j].region == rx,
    ensures
        scraped_price(scr, rx, id) == last_price_of(scr[j].items, id),
    decreases scr.len(),
{
    assert(scr.last() == scr[scr.len() - 1]);
    if j == scr.len() - 1 {
        if last_price_of(scr.last().items, id) is None {
            assert(forall|q: int|
                0 <= q < scr.drop_last().len() ==> (#[trigger] scr.drop_last()[q]).region != rx);
            lemma_no_region_price(scr.drop_last(), rx, id);
        }
    } else {
        assert(scr.last().region != rx);
        assert(scr.drop_last()[j] == scr[j]);
        lemma_price_by_entry(scr.drop_last(), rx, id, j);
    }
}

proof fn lemma_price_same_entries(
    s1: Seq<ScrapeModel>,
    s2: Seq<ScrapeModel>,
    rx: Region,
    id: int,
)
    requires
        distinct_regions(s1),
        distinct_regions(s2),
        forall|e: ScrapeModel| s1.contains(e) <==> s2.contains(e),
    ensures
        scraped_price(s1, rx, id) == scraped_price(s2, rx, id),
{
    if exists|j: int| 0 <= j < s1.len() && (#[trigger] s1[j]).region == rx {
        let j1 = choose|j: int| 0 <= j < s1.len() && (#[trigger] s1[j]).region == rx;
        assert(s1.contains(s1[j1]));
        assert(s2.contains(s1[j1]));
        let j2 = choose|k: int| 0 <= k < s2.len() && s2[k] == s1[j1];
        lemma_price_by_entry(s1, rx, id, j1);
        lemma_price_by_entry(s2, rx, id, j2);
    } else {
        assert(forall|j: int| 0 <= j < s1.len() ==> (#[trigger] s1[j]).region != rx);
        lemma_no_region_price(s1, rx, id);
        assert forall|k: int| 0 <= k < s2.len() implies (#[trigger] s2[k]).region != rx by {
            assert(s2.contains(s2[k]));
            assert(s1.contains(s2[k]));
            let q = choose|q: int| 0 <= q < s1.len() && s1[q] == s2[k];
            assert(s1[q].region != rx);
        }
        lemma_no_region_price(s2, rx, id);
    }
}

proof fn lemma_scrapes_contain_witness(scr: Seq<ScrapeModel>, id: int)
    ensures
        scrapes_contain(scr, id) == exists|j: int|
            0 <= j < scr.len() && items_contain((#[trigger] scr[j]).items, id),
    decreases scr.len(),
{
    if scr.len() > 0 {
        lemma_scrapes_contain_witness(scr.drop_last(), id);
        assert(scr.last() == scr[scr.len() - 1]);
        if exists|j: int|
            0 <= j < scr.drop_last().len() && items_contain(
                (#[trigger] scr.drop_last()[j]).items,
                id,
            ) {
            let j = choose|j: int|
                0 <= j < scr.drop_last().len() && items_contain(
                    (#[trigger] scr.drop_last()[j]).items,
                    id,
                );
            assert(scr[j] == scr.drop_last()[j]);
        }
        if !scrapes_contain(scr, id) {
            assert forall|j: int|
                0 <= j < scr.len() implies !items_contain((#[trigger] scr[j]).items, id) by {
                if j < scr.len() - 1 {
                    assert(scr.drop_last()[j] == scr[j]);
                }
            }
        }
    }
}

/// Merge determinism: two scrape lists that hold the same set of per-region
/// entries, each region appearing at most once, give every id the same price
/// map and the same membership, whatever order the regions came in. Together
/// with the contract of `merge_scrapes`, two merges of reordered scrapes
/// agree on the ids present and on every item's full price map.
pub proof fn lemma_merge_order_irrelevant(s1: Seq<ScrapeModel>, s2: Seq<ScrapeModel>)
    requires
        distinct_regions(s1),
        distinct_regions(s2),
        forall|e: ScrapeModel| s1.contains(e) <==> s2.contains(e),
    ensures
        forall|rx: Region, id: int|
            #[trigger] scraped_price(s1, rx, id) == scraped_price(s2, rx, id),
        forall|id: int| #[trigger] scrapes_contain(s1, id) == scrapes_contain(s2, id),
{
    assert forall|rx: Region, id: int|
        #[trigger] scraped_price(s1, rx, id) == scraped_price(s2, rx, id) by {
        lemma_price_same_entries(s1, s2, rx, id);
    }
    assert forall|id: int| #[trigger] scrapes_contain(s1, id) == scrapes_contain(s2, id) by {
        lemma_scrapes_contain_witness(s1, id);
        lemma_scrapes_contain_witness(s2, id);
        if scrapes_contain(s1, id) {
            let j = choose|j: int|
                0 <= j < s1.len() && items_contain((#[trigger] s1[j]).items, id);
            assert(s1.contains(s1[j]));
            assert(s2.contains(s1[j]));
            let k = choose|k: int| 0 <= k < s2.len() && s2[k] == s1[j];
            assert(items_contain(s2[k].items, id));
        }
        if scrapes_contain(s2, id) {
            let j = choose|j: int|
                0 <= j < s2.len() && items_contain((#[trigger] s2[j]).items, id);
            assert(s2.contains(s2[j]));
            assert(s1.contains(s2[j]));
            let k = choose|k: int| 0 <= k < s1.len() && s1[k] == s2[j];
            assert(items_contain(s1[k].items, id));
        }
    }
}

proof fn lemma_merged_wrt_empty_entry(out: Seq<ItemModel>, base: Seq<ScrapeModel>, r: Region)
    requires
        merged_wrt(out, base),
    ensures
        merged_wrt(out, base.push(ScrapeModel { region: r, items: Seq::empty() })),
{
    let next = base.push(ScrapeModel { region: r, items: Seq::empty() });
    assert(next.drop_last() =~= base);
    assert forall|id: int| true implies !items_contain(Seq::<RawModel>::empty(), id) by {
    }
    assert forall|id: int| #[trigger] scrapes_contain(next, id) implies has_id(out, id) by {
        assert(scrapes_contain(base, id));
    }
    assert forall|q: int| 0 <= q < out.len() implies fields_from_first(#[trigger] out[q], next) by {
        assert(first_raw_in(Seq::<RawModel>::empty(), out[q].id) is None);
    }
    assert forall|q: int, ri: int|
        0 <= q < out.len() && 0 <= ri < REGION_COUNT implies (#[trigger] out[q].prices[ri])
        == scraped_price(next, spec_region_of_index(ri), out[q].id) by {
        assert(last_price_of(Seq::<RawModel>::empty(), out[q].id) is None);
    }
}

/// First index whose item id is at least the given id.
fn lower_bound(out: &Vec<ShopItem>, id: usize) -> (p: usize)
    requires
        sorted_by_id(out.deep_view()),
    ensures
        p <= out@.len(),
        forall|q: int| 0 <= q < p ==> out.deep_view()[q].id < id,
        forall|q: int| p <= q < out@.len() ==> out.deep_view()[q].id >= id,
{
    let mut p: usize = 0;
    while p < out.len()
        invariant
            sorted_by_id(out.deep_view()),
            p <= out@.len(),
            out@.len() == out.deep_view().len(),
            forall|q: int| 0 <= q < p ==> out.deep_view()[q].id < id,
        decreases out@.len() - p,
    {
        if out[p].id >= id {
            proof {
                assert forall|q: int| p <= q < out@.len() implies out.deep_view()[q].id >= id by {
                    if q > p {
                        assert(out.deep_view()[p as int].id < out.deep_view()[q].id);
                    }
                }
            }
            return p;
        }
        p = p + 1;
    }
    p
}

/// Merge the per-region raw scrapes of one cycle into the canonical item set,
/// ordered by id. Each id appears once; the first region listing an id
/// supplies its non-price fields; every region listing the id contributes its
/// price to the aggregated price map.
pub fn merge_scrapes(scrapes: &Vec<RegionScrape>) -> (out: Vec<ShopItem>)
    ensures
        sorted_by_id(out.deep_view()),
        unique_ids(out.deep_view()),
        crate::diff::all_wf(out@),
        merged_wrt(out.deep_view(), scrapes.deep_view()),
{
    let ghost sv = scrapes.deep_view();
    let mut out: Vec<ShopItem> = Vec::new();
    proof {
        assert(out.deep_view() =~= Seq::<ItemModel>::empty());
    }
    let mut j: usize = 0;
    while j < scrapes.len()
        invariant
            sv == scrapes.deep_view(),
            sv.len() == scrapes@.len(),
            j <= sv.len(),
            crate::diff::all_wf(out@),
            merged_wrt(out.deep_view(), sv.take(j as int)),
        decreases sv.len() - j,
    {
        let sc = &scrapes[j];
        let region = sc.region;
        let ghost base = sv.take(j as int);
        let mut i: usize = 0;
        proof {
            assert(sc.deep_view() == sv[j as int]);
            assert(sc.items.deep_view().take(0) =~= Seq::<RawModel>::empty());
            assert(base.push(ScrapeModel { region: region, items: Seq::empty() }).drop_last()
                =~= base);
            lemma_merged_wrt_empty_entry(out.deep_view(), base, region);
        }
        while i < sc.items.len()
            invariant
                sv == scrapes.deep_view(),
                sv.len() == scrapes@.len(),
                j < sv.len(),
                sc.deep_view() == sv[j as int],
                region == sv[j as int].region,
                sc.items@.len() == sc.items.deep_view().len(),
                i <= sc.items@.len(),
                crate::diff::all_wf(out@),
                merged_wrt(
                    out.deep_view(),
                    sv.take(j as int).push(
                        ScrapeModel { region: region, items: sc.items.deep_view().take(i as int) },
                    ),
                ),
            decreases sc.items@.len() - i,
        {
            let ghost base = sv.take(j as int);
            let ghost its = sc.items.deep_view().take(i as int);
            let ghost y = sc.items.deep_view()[i as int];
            let raw = &sc.items[i];
            proof {
                assert(raw.deep_view() == y);
                assert(sc.items.deep_view().take(i + 1) =~= its.push(y));
            }
            let ghost out_before = out.deep_view();
            let ghost out_exec_before = out@;
            let p = lower_bound(&out, raw.id);
            let found = p < out.len() && out[p].id == raw.id;
            if found {
                let mut item = out.remove(p);
                let ghost old_model = item.deep_view();
                item.prices.set(region, raw.price);
                proof {
                    assert(item.prices.spec_get(region) is Some);
                    assert(!item.prices.spec_is_empty());
                }
                out.insert(p, item);
                proof {
                    let m = ItemModel {
                        prices: old_model.prices.update(spec_region_index(region), Some(y.price)),
                        ..old_model
                    };
                    lemma_step_update(out_before, base, region, its, y, p as int);
                    assert(out.deep_view() =~= out_before.update(p as int, m));
                    assert forall|q: int| 0 <= q < out@.len() implies (#[trigger] out@[q]).wf() by {
                        if q != p {
                            assert(out@[q] == out_exec_before[q]);
                        }
                    }
                }
            } else {
                proof {
                    assert forall|q: int|
                        p <= q < out_before.len() implies out_before[q].id > y.id by {
                        if q > p {
                            assert(out_before[p as int].id < out_before[q].id);
                        }
                    }
                    assert(!has_id(out_before, y.id));
                }
                let item = ShopItem::from_raw(raw.duplicate(), region);
                let ghost m = item.deep_view();
                out.insert(p, item);
                proof {
                    assert(m.prices =~= Seq::new(REGION_COUNT as nat, |q: int| Option::<u32>::None)
                        .update(spec_region_index(region), Some(y.price)));
                    lemma_step_insert(out_before, base, region, its, y, p as int, m);
                    assert(out.deep_view() =~= out_before.insert(p as int, m));
                    assert forall|q: int| 0 <= q < out@.len() implies (#[trigger] out@[q]).wf() by {
                        if q < p {
                            assert(out@[q] == out_exec_before[q]);
                        } else if q > p {
                            assert(out@[q] == out_exec_before[q - 1]);
                        }
                    }
                }
            }
            i = i + 1;
        }
        proof {
            assert(sc.items.deep_view().take(sc.items@.len() as int) =~= sc.items.deep_view());
            assert(sv.take(j as int).push(
                ScrapeModel { region: region, items: sc.items.deep_view() },
            ) =~= sv.take(j + 1));
        }
        j = j + 1;
    }
    proof {
        assert(sv.take(sv.len() as int) =~= sv);
        lemma_sorted_unique(out.deep_view());
    }
    out
}

} // verus!
