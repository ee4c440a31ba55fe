//! Scrape-merge pipeline for a web storefront: regional listings are merged
//! into canonical items, compared against the previous snapshot, and each
//! item's image is mirrored through a content-keyed, persistent upload cache.

pub mod cache;
pub mod diff;
pub mod extract;
pub mod item;
pub mod merge;
pub mod region;
pub mod render;
pub mod urlext;

use vstd::prelude::*;

verus! {

/// Default user agent presented to the remote storefront.
pub fn default_user_agent() -> (r: String)
    ensures
        r@ == "Mozilla/5.0 (Macintosh; Intel Mac OS X 10_15_7) AppleWebKit/537.36 (KHTML, like Gecko) Chrome/143.0.0.0 Safari/537.36"@,
{
    String::from_str(
        "Mozilla/5.0 (Macintosh; Intel Mac OS X 10_15_7) AppleWebKit/537.36 (KHTML, like Gecko) Chrome/143.0.0.0 Safari/537.36",
    )
}

/// Default base URL of the storefront.
pub fn default_base_url() -> (r: String)
    ensures
        r@ == "https://flavortown.hackclub.com/"@,
{
    String::from_str("https://flavortown.hackclub.com/")
}

} // verus!
