//! Items and their per-region price maps.
//!
//! An item's identity is the integer id assigned by the source system. Items
//! are value objects: built fresh each scrape cycle and compared by full
//! structural equality when diffing.

use vstd::prelude::*;

use crate::region::{spec_region_index, Region, REGION_COUNT};

verus! {

/// A price map from region to price in the smallest currency unit, stored as
/// one slot per region in the fixed enumeration order.
#[derive(Debug)]
pub struct Prices {
    slots: Vec<Option<u32>>,
}

impl View for Prices {
    type V = Seq<Option<u32>>;

    closed spec fn view(&self) -> Seq<Option<u32>> {
        self.slots@
    }
}

impl Prices {
    /// A price map is well formed when it has exactly one slot per region.
    pub open spec fn wf(&self) -> bool {
        self@.len() == REGION_COUNT
    }

    /// The price this map holds for a region.
    pub open spec fn spec_get(&self, r: Region) -> Option<u32> {
        self@[spec_region_index(r)]
    }

    /// True when no region has a price.
    pub open spec fn spec_is_empty(&self) -> bool {
        forall|i: int| 0 <= i < self@.len() ==> self@[i] is None
    }

    /// An empty price map.
    pub fn new() -> (p: Prices)
        ensures
            p.wf(),
            p.spec_is_empty(),
    {
        let mut slots: Vec<Option<u32>> = Vec::new();
        let mut i: usize = 0;
        while i < REGION_COUNT
            invariant
                i <= REGION_COUNT,
                slots@.len() == i,
                forall|j: int| 0 <= j < i ==> slots@[j] is None,
            decreases REGION_COUNT - i,
        {
            slots.push(None);
            i = i + 1;
        }
        Prices { slots }
    }

    /// A price map holding a single region's price.
    pub fn singleton(r: Region, price: u32) -> (p: Prices)
        ensures
            p.wf(),
            p@ == Seq::new(REGION_COUNT as nat, |i: int| Option::<u32>::None).update(
                spec_region_index(r),
                Some(price),
            ),
            p.spec_get(r) == Some(price),
            forall|r2: Region| r2 != r ==> p.spec_get(r2) is None,
    {
        let mut p = Prices::new();
        p.set(r, price);
        proof {
            assert(p@ =~= Seq::new(REGION_COUNT as nat, |i: int| Option::<u32>::None).update(
                spec_region_index(r),
                Some(price),
            ));
        }
        p
    }

    /// Insert or overwrite one region's price.
    pub fn set(&mut self, r: Region, price: u32)
        requires
            old(self).wf(),
        ensures
            final(self).wf(),
            final(self)@ == old(self)@.update(spec_region_index(r), Some(price)),
            final(self).spec_get(r) == Some(price),
            forall|r2: Region| r2 != r ==> final(self).spec_get(r2) == old(self).spec_get(r2),
    {
        let i = r.index();
        self.slots.set(i, Some(price));
        proof {
            crate::region::lemma_region_index_bijective();
        }
    }

    /// Read one region's price.
    pub fn get(&self, r: Region) -> (o: Option<u32>)
        requires
            self.wf(),
        ensures
            o == self.spec_get(r),
    {
        let i = r.index();
        self.slots[i]
    }

    /// How many slots this price map carries; a well-formed map carries one
    /// per region.
    pub fn slot_count(&self) -> (n: usize)
        ensures
            n == self@.len(),
    {
        self.slots.len()
    }

    /// Read the price slot at a position of the enumeration order.
    pub fn get_by_index(&self, i: usize) -> (o: Option<u32>)
        requires
            self.wf(),
            i < REGION_COUNT,
        ensures
            o == self@[i as int],
    {
        self.slots[i]
    }

    /// A structurally equal copy.
    pub fn duplicate(&self) -> (p: Prices)
        requires
            self.wf(),
        ensures
            p.wf(),
            p@ == self@,
    {
        let mut slots: Vec<Option<u32>> = Vec::new();
        let mut i: usize = 0;
        while i < REGION_COUNT
            invariant
                self.wf(),
                i <= REGION_COUNT,
                slots@.len() == i,
                forall|j: int| 0 <= j < i ==> slots@[j] == self@[j],
            decreases REGION_COUNT - i,
        {
            slots.push(self.slots[i]);
            i = i + 1;
        }
        proof {
            assert(slots@ =~= self@);
        }
        Prices { slots }
    }

    /// True when the two maps give every region the same price.
    pub fn equals(&self, other: &Prices) -> (r: bool)
        requires
            self.wf(),
            other.wf(),
        ensures
            r == (self@ == other@),
    {
        let mut i: usize = 0;
        let mut same = true;
        while i < REGION_COUNT
            invariant
                self.wf(),
                other.wf(),
                i <= REGION_COUNT,
                same == (forall|j: int| 0 <= j < i ==> self@[j] == other@[j]),
            decreases REGION_COUNT - i,
        {
            let a = self.slots[i];
            let b = other.slots[i];
            let eq_here = match (a, b) {
                (None, None) => true,
                (Some(x), Some(y)) => x == y,
                _ => false,
            };
            same = same && eq_here;
            i = i + 1;
        }
        proof {
            if same {
                assert(self@ =~= other@);
            }
        }
        same
    }

    /// True when no region has a price.
    pub fn is_empty(&self) -> (r: bool)
        requires
            self.wf(),
        ensures
            r == self.spec_is_empty(),
    {
        let mut i: usize = 0;
        let mut empty = true;
        while i < REGION_COUNT
            invariant
                self.wf(),
                i <= REGION_COUNT,
                empty == (forall|j: int| 0 <= j < i ==> self@[j] is None),
            decreases REGION_COUNT - i,
        {
            empty = empty && self.slots[i].is_none();
            i = i + 1;
        }
        empty
    }
}

/// The mathematical value of a raw, single-region item record.
pub ghost struct RawModel {
    pub title: Seq<char>,
    pub description: Seq<char>,
    pub price: u32,
    pub image_url: Seq<char>,
    pub image_id: int,
    pub id: int,
}

/// One item card as extracted from a single region's page: every field of an
/// item, with the one price that region showed.
#[derive(Debug)]
pub struct RawItem {
    pub title: String,
    pub description: String,
    pub price: u32,
    pub image_url: String,
    pub image_id: usize,
    pub id: usize,
}

impl View for RawItem {
    type V = RawModel;

    open spec fn view(&self) -> RawModel {
        RawModel {
            title: self.title@,
            description: self.description@,
            price: self.price,
            image_url: self.image_url@,
            image_id: self.image_id as int,
            id: self.id as int,
        }
    }
}

impl DeepView for RawItem {
    type V = RawModel;

    open spec fn deep_view(&self) -> RawModel {
        self.view()
    }
}

impl RawItem {
    /// A structurally equal copy.
    pub fn duplicate(&self) -> (r: RawItem)
        ensures
            r@ == self@,
    {
        RawItem {
            title: self.title.clone(),
            description: self.description.clone(),
            price: self.price,
            image_url: self.image_url.clone(),
            image_id: self.image_id,
            id: self.id,
        }
    }
}

/// The mathematical value of a merged item.
pub ghost struct ItemModel {
    pub title: Seq<char>,
    pub description: Seq<char>,
    pub prices: Seq<Option<u32>>,
    pub image_url: Seq<char>,
    pub image_id: int,
    pub id: int,
}

/// A canonical merged item: one entry per source id, with the aggregated
/// per-region price map.
#[derive(Debug)]
pub struct ShopItem {
    pub title: String,
    pub description: String,
    pub prices: Prices,
    pub image_url: String,
    pub image_id: usize,
    pub id: usize,
}

impl View for ShopItem {
    type V = ItemModel;

    open spec fn view(&self) -> ItemModel {
        ItemModel {
            title: self.title@,
            description: self.description@,
            prices: self.prices@,
            image_url: self.image_url@,
            image_id: self.image_id as int,
            id: self.id as int,
        }
    }
}

impl DeepView for ShopItem {
    type V = ItemModel;

    open spec fn deep_view(&self) -> ItemModel {
        self.view()
    }
}

impl ShopItem {
    /// Every item carries one slot per region and at least one region's price.
    pub open spec fn wf(&self) -> bool {
        &&& self.prices.wf()
        &&& !self.prices.spec_is_empty()
    }

    /// The merged item a raw single-region record introduces: all fields are
    /// taken over, and the price map holds only that region's price.
    pub fn from_raw(raw: RawItem, region: Region) -> (item: ShopItem)
        ensures
            item.wf(),
            item@.title == raw@.title,
            item@.description == raw@.description,
            item@.image_url == raw@.image_url,
            item@.image_id == raw@.image_id,
            item@.id == raw@.id,
            item.prices@ == Seq::new(REGION_COUNT as nat, |i: int| Option::<u32>::None).update(
                spec_region_index(region),
                Some(raw.price),
            ),
    {
        let prices = Prices::singleton(region, raw.price);
        proof {
            crate::region::lemma_region_index_bijective();
        }
        ShopItem {
            title: raw.title,
            description: raw.description,
            prices,
            image_url: raw.image_url,
            image_id: raw.image_id,
            id: raw.id,
        }
    }

    /// A structurally equal copy.
    pub fn duplicate(&self) -> (r: ShopItem)
        requires
            self.wf(),
        ensures
            r.wf(),
            r@ == self@,
    {
        ShopItem {
            title: self.title.clone(),
            description: self.description.clone(),
            prices: self.prices.duplicate(),
            image_url: self.image_url.clone(),
            image_id: self.image_id,
            id: self.id,
        }
    }

    /// Full structural equality, the relation the diff engine classifies by:
    /// any change to title, description, image, or any single region's price
    /// makes two items unequal.
    pub fn equals(&self, other: &ShopItem) -> (r: bool)
        requires
            self.wf(),
            other.wf(),
        ensures
            r == (self@ == other@),
    {
        let r = self.id == other.id && self.image_id == other.image_id && self.title.eq(
            &other.title,
        ) && self.description.eq(&other.description) && self.image_url.eq(&other.image_url)
            && self.prices.equals(&other.prices);
        proof {
            if r {
                assert(self@ == other@);
            }
        }
        r
    }
}

} // verus!
