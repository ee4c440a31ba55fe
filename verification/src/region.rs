//! The fixed, closed set of storefront regions.
//!
//! The enumeration order is semantically load-bearing: the merge engine
//! processes regions in this order, and that order decides which region's
//! non-price fields win when two regions list the same item id.

use vstd::prelude::*;

verus! {

/// Number of regions in the closed set.
pub const REGION_COUNT: usize = 7;

/// A storefront region. The remote catalog is scraped once per region.
#[derive(Clone, Copy, Debug, Hash, PartialEq, Eq, Structural)]
pub enum Region {
    UnitedStates,
    Europe,
    UnitedKingdom,
    India,
    Canada,
    Australia,
    /// The "rest of world" catch-all region.
    Global,
}

/// Position of a region in the fixed enumeration order.
pub open spec fn spec_region_index(r: Region) -> int {
    match r {
        Region::UnitedStates => 0,
        Region::Europe => 1,
        Region::UnitedKingdom => 2,
        Region::India => 3,
        Region::Canada => 4,
        Region::Australia => 5,
        Region::Global => 6,
    }
}

/// The region sitting at a given position of the enumeration order.
pub open spec fn spec_region_of_index(i: int) -> Region {
    if i == 0 {
        Region::UnitedStates
    } else if i == 1 {
        Region::Europe
    } else if i == 2 {
        Region::UnitedKingdom
    } else if i == 3 {
        Region::India
    } else if i == 4 {
        Region::Canada
    } else if i == 5 {
        Region::Australia
    } else {
        Region::Global
    }
}

/// The fixed enumeration order of the region set.
pub open spec fn spec_region_order() -> Seq<Region> {
    seq![
        Region::UnitedStates,
        Region::Europe,
        Region::UnitedKingdom,
        Region::India,
        Region::Canada,
        Region::Australia,
        Region::Global,
    ]
}

/// Region indices are inverse to `spec_region_of_index`.
pub proof fn lemma_region_index_bijective()
    ensures
        forall|r: Region| spec_region_of_index(#[trigger] spec_region_index(r)) == r,
        forall|i: int|
            0 <= i < REGION_COUNT ==> spec_region_index(#[trigger] spec_region_of_index(i)) == i,
        forall|r: Region| 0 <= #[trigger] spec_region_index(r) < REGION_COUNT,
{
}

/// The short machine code sent to the remote API when selecting a region.
pub open spec fn spec_region_code(r: Region) -> Seq<char> {
    match r {
        Region::UnitedStates => "US"@,
        Region::Europe => "EU"@,
        Region::UnitedKingdom => "UK"@,
        Region::India => "IN"@,
        Region::Canada => "CA"@,
        Region::Australia => "AU"@,
        Region::Global => "XX"@,
    }
}

/// The display label the storefront shows for a selected region.
pub open spec fn spec_region_label(r: Region) -> Seq<char> {
    match r {
        Region::UnitedStates => "United States"@,
        Region::Europe => "EU"@,
        Region::UnitedKingdom => "United Kingdom"@,
        Region::India => "India"@,
        Region::Canada => "Canada"@,
        Region::Australia => "Australia"@,
        Region::Global => "Rest of World"@,
    }
}

impl Region {
    /// Position of this region in the fixed enumeration order.
    pub fn index(&self) -> (i: usize)
        ensures
            i == spec_region_index(*self),
    {
        match self {
            Region::UnitedStates => 0,
            Region::Europe => 1,
            Region::UnitedKingdom => 2,
            Region::India => 3,
            Region::Canada => 4,
            Region::Australia => 5,
            Region::Global => 6,
        }
    }

    /// The region at a position of the enumeration order.
    pub fn from_index(i: usize) -> (r: Region)
        requires
            i < REGION_COUNT,
        ensures
            r == spec_region_of_index(i as int),
    {
        if i == 0 {
            Region::UnitedStates
        } else if i == 1 {
            Region::Europe
        } else if i == 2 {
            Region::UnitedKingdom
        } else if i == 3 {
            Region::India
        } else if i == 4 {
            Region::Canada
        } else if i == 5 {
            Region::Australia
        } else {
            Region::Global
        }
    }

    /// The short machine code used in the region-select request.
    pub fn code(&self) -> (c: &'static str)
        ensures
            c@ == spec_region_code(*self),
    {
        match self {
            Region::UnitedStates => "US",
            Region::Europe => "EU",
            Region::UnitedKingdom => "UK",
            Region::India => "IN",
            Region::Canada => "CA",
            Region::Australia => "AU",
            Region::Global => "XX",
        }
    }

    /// The display label shown by the storefront for this region.
    pub fn label(&self) -> (l: &'static str)
        ensures
            l@ == spec_region_label(*self),
    {
        match self {
            Region::UnitedStates => "United States",
            Region::Europe => "EU",
            Region::UnitedKingdom => "United Kingdom",
            Region::India => "India",
            Region::Canada => "Canada",
            Region::Australia => "Australia",
            Region::Global => "Rest of World",
        }
    }
}

/// The post-selection verification failed: after the "select region" request,
/// the storefront page displayed some other selection. The remote side effect
/// and the page read are not atomic, so this guard exists; its failure is
/// fatal to the cycle, never retried silently.
#[derive(Debug)]
pub struct RegionConsistencyError {
    /// The label of the region that was requested.
    pub expected: String,
    /// The selection label the page actually displayed.
    pub found: String,
}

/// Verify that the selection label a fetched page displays is exactly the
/// label of the region that was requested.
pub fn check_region_selection(selected: &str, region: Region) -> (r: Result<
    (),
    RegionConsistencyError,
>)
    ensures
        (r is Ok) == (selected@ == spec_region_label(region)),
        r matches Err(e) ==> e.expected@ == spec_region_label(region) && e.found@ == selected@,
{
    let expected = region.label().to_owned();
    let found = selected.to_owned();
    if found.eq(&expected) {
        Ok(())
    } else {
        Err(RegionConsistencyError { expected, found })
    }
}

/// All regions, in the fixed enumeration order the merge engine uses.
pub fn all_regions() -> (rs: Vec<Region>)
    ensures
        rs@ == spec_region_order(),
{
    let mut rs: Vec<Region> = Vec::new();
    rs.push(Region::UnitedStates);
    rs.push(Region::Europe);
    rs.push(Region::UnitedKingdom);
    rs.push(Region::India);
    rs.push(Region::Canada);
    rs.push(Region::Australia);
    rs.push(Region::Global);
    proof {
        assert(rs@ =~= spec_region_order());
    }
    rs
}

} // verus!
