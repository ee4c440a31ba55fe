//! Text building for change notifications: price lines, markdown escaping,
//! headers and buy links, and the decisions of the updated-item rendering.
//!
//! Everything here is a pure function from items and diffs to strings; the
//! wrapping of these strings into delivery-format blocks and the outbound
//! webhook call are the delivery layer's business, not this module's.

use vstd::prelude::*;

use crate::item::{Prices, ShopItem};
use crate::region::{spec_region_label, spec_region_of_index, Region, REGION_COUNT};

verus! {

/// The digit character of a decimal digit value.
pub open spec fn spec_digit_char(d: int) -> char {
    if d == 0 {
        '0'
    } else if d == 1 {
        '1'
    } else if d == 2 {
        '2'
    } else if d == 3 {
        '3'
    } else if d == 4 {
        '4'
    } else if d == 5 {
        '5'
    } else if d == 6 {
        '6'
    } else if d == 7 {
        '7'
    } else if d == 8 {
        '8'
    } else {
        '9'
    }
}

/// The decimal representation of a nonnegative integer, most significant
/// digit first, without leading zeros (zero itself is "0").
pub open spec fn spec_udec(n: int) -> Seq<char>
    decreases n
    when n >= 0
{
    if n < 10 {
        seq![spec_digit_char(n)]
    } else {
        spec_udec(n / 10).push(spec_digit_char(n % 10))
    }
}

fn digit_str(d: u64) -> (r: &'static str)
    requires
        d < 10,
    ensures
        r@ == seq![spec_digit_char(d as int)],
{
    proof {
        reveal_strlit("0");
        reveal_strlit("1");
        reveal_strlit("2");
        reveal_strlit("3");
        reveal_strlit("4");
        reveal_strlit("5");
        reveal_strlit("6");
        reveal_strlit("7");
        reveal_strlit("8");
        reveal_strlit("9");
        assert("0"@ =~= seq!['0']);
        assert("1"@ =~= seq!['1']);
        assert("2"@ =~= seq!['2']);
        assert("3"@ =~= seq!['3']);
        assert("4"@ =~= seq!['4']);
        assert("5"@ =~= seq!['5']);
        assert("6"@ =~= seq!['6']);
        assert("7"@ =~= seq!['7']);
        assert("8"@ =~= seq!['8']);
        assert("9"@ =~= seq!['9']);
    }
    match d {
        0 => "0",
        1 => "1",
        2 => "2",
        3 => "3",
        4 => "4",
        5 => "5",
        6 => "6",
        7 => "7",
        8 => "8",
        _ => "9",
    }
}

fn push_decimal(n: u64, out: &mut String)
    ensures
        final(out)@ == old(out)@ + spec_udec(n as int),
    decreases n,
{
    if n < 10 {
        out.append(digit_str(n));
        proof {
            assert(final(out)@ =~= old(out)@ + spec_udec(n as int));
        }
    } else {
        push_decimal(n / 10, out);
        out.append(digit_str(n % 10));
        proof {
            assert(final(out)@ =~= old(out)@ + spec_udec(n as int));
        }
    }
}

/// The decimal representation of an integer as a string.
pub fn u64_to_string(n: u64) -> (r: String)
    ensures
        r@ == spec_udec(n as int),
{
    let mut out = String::new();
    push_decimal(n, &mut out);
    proof {
        assert(out@ =~= spec_udec(n as int));
    }
    out
}

/// How one character is escaped for markdown: the marker characters get a
/// leading backslash, everything else stays as it is.
pub open spec fn spec_escape_char(c: char) -> Seq<char> {
    if c == '_' || c == '*' || c == '~' || c == '`' {
        seq!['\\', c]
    } else {
        seq![c]
    }
}

/// A text with every markdown marker escaped.
pub open spec fn spec_escape(s: Seq<char>) -> Seq<char>
    decreases s.len(),
{
    if s.len() == 0 {
        Seq::empty()
    } else {
        spec_escape(s.drop_last()) + spec_escape_char(s.last())
    }
}

/// Escape markdown markers in a text.
pub fn escape_markdown(text: &str) -> (r: String)
    ensures
        r@ == spec_escape(text@),
{
    let n = text.unicode_len();
    let mut out = String::new();
    let mut i: usize = 0;
    while i < n
        invariant
            n == text@.len(),
            i <= n,
            out@ == spec_escape(text@.take(i as int)),
        decreases n - i,
    {
        let c = text.get_char(i);
        if c == '_' {
            out.append("\\_");
        } else if c == '*' {
            out.append("\\*");
        } else if c == '~' {
            out.append("\\~");
        } else if c == '`' {
            out.append("\\`");
        } else {
            out.append(text.substring_char(i, i + 1));
        }
        proof {
            reveal_strlit("\\_");
            reveal_strlit("\\*");
            reveal_strlit("\\~");
            reveal_strlit("\\`");
            assert(text@.take(i + 1).drop_last() =~= text@.take(i as int));
            assert(text@.take(i + 1).last() == text@[i as int]);
            if c == '_' || c == '*' || c == '~' || c == '`' {
                assert(out@ =~= spec_escape(text@.take(i + 1)));
            } else {
                assert(text@.subrange(i as int, i + 1) =~= seq![text@[i as int]]);
                assert(out@ =~= spec_escape(text@.take(i + 1)));
            }
        }
        i = i + 1;
    }
    proof {
        assert(text@.take(n as int) =~= text@);
    }
    out
}

/// True when the two price maps differ anywhere.
pub fn prices_changed(old_prices: &Prices, new_prices: &Prices) -> (r: bool)
    requires
        old_prices.wf(),
        new_prices.wf(),
    ensures
        r == (old_prices@ != new_prices@),
{
    !old_prices.equals(new_prices)
}

/// One segment of a many-region price line: label, space, price.
pub open spec fn spec_price_segment(ri: int, v: u32) -> Seq<char> {
    spec_region_label(spec_region_of_index(ri)) + " "@ + spec_udec(v as int)
}

/// The segments of a price line from region index `i` on, joined by ", ".
pub open spec fn spec_price_list(p: Seq<Option<u32>>, i: int) -> Seq<char>
    decreases REGION_COUNT - i
    when 0 <= i <= REGION_COUNT
{
    if i >= REGION_COUNT {
        Seq::empty()
    } else {
        let rest = spec_price_list(p, i + 1);
        match p[i] {
            None => rest,
            Some(v) => if rest.len() == 0 {
                spec_price_segment(i, v)
            } else {
                spec_price_segment(i, v) + ", "@ + rest
            },
        }
    }
}

/// How many regions carry a price.
pub open spec fn spec_price_count(p: Seq<Option<u32>>, i: int) -> int
    decreases REGION_COUNT - i
    when 0 <= i <= REGION_COUNT
{
    if i >= REGION_COUNT {
        0
    } else {
        spec_price_count(p, i + 1) + if p[i] is Some {
            1int
        } else {
            0int
        }
    }
}

/// The price line of an item. One region: the price with that region's label.
/// Every region priced the same: the price once, labelled "Rest of World".
/// Anything else: each priced region's label and price, in enumeration order.
pub open spec fn spec_format_prices(p: Seq<Option<u32>>) -> Seq<char> {
    if spec_price_count(p, 0) == 1 {
        let ri = choose|ri: int| 0 <= ri < REGION_COUNT && p[ri] is Some;
        spec_udec(p[ri].unwrap() as int) + " ("@ + spec_region_label(spec_region_of_index(ri))
            + ")"@
    } else if spec_price_count(p, 0) == REGION_COUNT && (forall|ri: int|
        0 <= ri < REGION_COUNT ==> #[trigger] p[ri] == p[0]) {
        spec_udec(p[0].unwrap() as int) + " (Rest of World)"@
    } else {
        spec_price_list(p, 0)
    }
}

fn count_prices(prices: &Prices) -> (c: usize)
    requires
        prices.wf(),
    ensures
        c == spec_price_count(prices@, 0),
        c <= REGION_COUNT,
{
    let mut i: usize = REGION_COUNT;
    let mut c: usize = 0;
    while i > 0
        invariant
            prices.wf(),
            i <= REGION_COUNT,
            c == spec_price_count(prices@, i as int),
            c <= REGION_COUNT - i,
        decreases i,
    {
        i = i - 1;
        if prices.get_by_index(i).is_some() {
            c = c + 1;
        }
    }
    c
}

/// Format an item's price map for display.
pub fn format_prices(prices: &Prices) -> (r: String)
    requires
        prices.wf(),
    ensures
        r@ == spec_format_prices(prices@),
{
    let count = count_prices(prices);
    if count == 1 {
        let mut i: usize = 0;
        while i < REGION_COUNT
            invariant
                prices.wf(),
                spec_price_count(prices@, 0) == 1,
                i <= REGION_COUNT,
                forall|j: int| 0 <= j < i ==> prices@[j] is None,
            decreases REGION_COUNT - i,
        {
            if let Some(v) = prices.get_by_index(i) {
                let mut out = u64_to_string(v as u64);
                out.append(" (");
                out.append(Region::from_index(i).label());
                out.append(")");
                proof {
                    assert(0 <= i < REGION_COUNT && prices@[i as int] is Some);
                    let ri = choose|ri: int| 0 <= ri < REGION_COUNT && prices@[ri] is Some;
                    assert(prices@[ri] is Some);
                    lemma_single_price(prices@, i as int, ri);
                    assert(out@ =~= spec_format_prices(prices@));
                }
                return out;
            }
            i = i + 1;
        }
        proof {
            lemma_count_zero(prices@, 0);
            assert(false);
        }
        String::new()
    } else {
        let all_same = count == REGION_COUNT && {
            let first = prices.get_by_index(0);
            let mut same = true;
            let mut i: usize = 0;
            while i < REGION_COUNT
                invariant
                    prices.wf(),
                    i <= REGION_COUNT,
                    first == prices@[0],
                    same == (forall|j: int| 0 <= j < i ==> #[trigger] prices@[j] == prices@[0]),
                decreases REGION_COUNT - i,
            {
                same = same && {
                    let a = prices.get_by_index(i);
                    let b = first;
                    match (a, b) {
                        (None, None) => true,
                        (Some(x), Some(y)) => x == y,
                        _ => false,
                    }
                };
                i = i + 1;
            }
            same
        };
        if all_same {
            proof {
                lemma_count_full(prices@, 0);
            }
            let v = match prices.get_by_index(0) {
                Some(v) => v,
                None => {
                    proof {
                        assert(false);
                    }
                    0
                },
            };
            let mut out = u64_to_string(v as u64);
            out.append(" (Rest of World)");
            proof {
                assert(out@ =~= spec_format_prices(prices@));
            }
            out
        } else {
            let mut out = String::new();
            let mut i: usize = REGION_COUNT;
            while i > 0
                invariant
                    prices.wf(),
                    i <= REGION_COUNT,
                    out@ == spec_price_list(prices@, i as int),
                decreases i,
            {
                i = i - 1;
                if let Some(v) = prices.get_by_index(i) {
                    let mut seg = String::new();
                    seg.append(Region::from_index(i).label());
                    seg.append(" ");
                    push_decimal(v as u64, &mut seg);
                    if out.as_str().is_empty() {
                        proof {
                            assert(out@.len() == 0);
                        }
                        out = seg;
                        proof {
                            assert(out@ =~= spec_price_list(prices@, i as int));
                        }
                    } else {
                        seg.append(", ");
                        seg.append(out.as_str());
                        out = seg;
                        proof {
                            assert(out@ =~= spec_price_list(prices@, i as int));
                        }
                    }
                }
            }
            proof {
                assert(spec_format_prices(prices@) == spec_price_list(prices@, 0));
            }
            out
        }
    }
}

/// The header line of an item notification: emoji, title, and price line.
pub open spec fn spec_item_header(emoji: Seq<char>, title: Seq<char>, p: Seq<Option<u32>>) -> Seq<
    char,
> {
    emoji + " "@ + title + " ("@ + ":shells:"@ + " "@ + spec_format_prices(p) + ")"@
}

/// Build the header line of an item notification.
pub fn item_header(emoji: &str, item: &ShopItem) -> (r: String)
    requires
        item.wf(),
    ensures
        r@ == spec_item_header(emoji@, item.title@, item.prices@),
{
    let mut out = String::new();
    out.append(emoji);
    out.append(" ");
    out.append(item.title.as_str());
    out.append(" (");
    out.append(":shells:");
    out.append(" ");
    let p = format_prices(&item.prices);
    out.append(p.as_str());
    out.append(")");
    proof {
        assert(out@ =~= spec_item_header(emoji@, item.title@, item.prices@));
    }
    out
}

/// The description block of an item notification: empty descriptions render
/// as nothing, others italicised with markdown markers escaped.
pub open spec fn spec_item_description(desc: Seq<char>) -> Seq<char> {
    if desc.len() == 0 {
        Seq::empty()
    } else {
        "_"@ + spec_escape(desc) + "_\n"@
    }
}

/// Build the description block of an item notification.
pub fn item_description(desc: &str) -> (r: String)
    ensures
        r@ == spec_item_description(desc@),
{
    if desc.is_empty() {
        String::new()
    } else {
        let mut out = String::new();
        out.append("_");
        let e = escape_markdown(desc);
        out.append(e.as_str());
        out.append("_\n");
        proof {
            assert(out@ =~= spec_item_description(desc@));
        }
        out
    }
}

/// A buy-button line linking to an order URL.
pub open spec fn spec_buy_button(url: Seq<char>) -> Seq<char> {
    "<"@ + url + "|*"@ + ":tw_shopping_trolley:"@ + " Buy*>"@
}

/// Build a buy-button line linking to an order URL.
pub fn buy_button(url: &str) -> (r: String)
    ensures
        r@ == spec_buy_button(url@),
{
    let mut out = String::new();
    out.append("<");
    out.append(url);
    out.append("|*");
    out.append(":tw_shopping_trolley:");
    out.append(" Buy*>");
    proof {
        assert(out@ =~= spec_buy_button(url@));
    }
    out
}

/// The order URL of an item under a storefront base URL that ends in `/`.
pub open spec fn spec_buy_link(base: Seq<char>, id: int) -> Seq<char> {
    base + "shop/order?shop_item_id="@ + spec_udec(id)
}

impl ShopItem {
    /// The order URL of this item. The base URL must end in `/`, as the
    /// storefront's canonical base does; plain concatenation would otherwise
    /// run the host and the order path together.
    pub fn buy_link(&self, base_url: &str) -> (r: String)
        requires
            base_url@.len() > 0,
            base_url@.last() == '/',
        ensures
            r@ == spec_buy_link(base_url@, self.id as int),
    {
        let mut out = String::new();
        out.append(base_url);
        out.append("shop/order?shop_item_id=");
        push_decimal(self.id as u64, &mut out);
        proof {
            assert(out@ =~= spec_buy_link(base_url@, self.id as int));
        }
        out
    }
}

/// The title line of an updated item: unchanged titles stand alone, changed
/// ones as old and new with an arrow between them.
pub open spec fn spec_updated_title(old_title: Seq<char>, new_title: Seq<char>) -> Seq<char> {
    if old_title == new_title {
        new_title
    } else {
        old_title + " → "@ + new_title
    }
}

/// Build the title line of an updated item.
pub fn updated_title(old_item: &ShopItem, new_item: &ShopItem) -> (r: String)
    ensures
        r@ == spec_updated_title(old_item.title@, new_item.title@),
{
    if old_item.title.eq(&new_item.title) {
        new_item.title.clone()
    } else {
        let mut out = String::new();
        out.append(old_item.title.as_str());
        out.append(" → ");
        out.append(new_item.title.as_str());
        proof {
            assert(out@ =~= spec_updated_title(old_item.title@, new_item.title@));
        }
        out
    }
}

/// The price line of an updated item: unchanged price maps render once,
/// changed ones as old and new with an arrow between them.
pub open spec fn spec_updated_price(old_p: Seq<Option<u32>>, new_p: Seq<Option<u32>>) -> Seq<
    char,
> {
    if old_p == new_p {
        spec_format_prices(new_p)
    } else {
        spec_format_prices(old_p) + " → "@ + spec_format_prices(new_p)
    }
}

/// Build the price line of an updated item.
pub fn updated_price(old_item: &ShopItem, new_item: &ShopItem) -> (r: String)
    requires
        old_item.wf(),
        new_item.wf(),
    ensures
        r@ == spec_updated_price(old_item.prices@, new_item.prices@),
{
    if prices_changed(&old_item.prices, &new_item.prices) {
        let mut out = format_prices(&old_item.prices);
        out.append(" → ");
        let n = format_prices(&new_item.prices);
        out.append(n.as_str());
        proof {
            assert(out@ =~= spec_updated_price(old_item.prices@, new_item.prices@));
        }
        out
    } else {
        format_prices(&new_item.prices)
    }
}

/// One side of an updated description: an empty description is written out as
/// a placeholder, a real one escaped.
pub open spec fn spec_desc_side(desc: Seq<char>) -> Seq<char> {
    if desc.len() == 0 {
        "_no description_"@
    } else {
        spec_escape(desc)
    }
}

/// The description block of an updated item: nothing when both sides are
/// empty, the usual block when both sides agree, otherwise old and new with
/// an arrow between them.
pub open spec fn spec_updated_description(old_d: Seq<char>, new_d: Seq<char>) -> Seq<char> {
    if old_d.len() == 0 && new_d.len() == 0 {
        Seq::empty()
    } else if old_d.len() != 0 && new_d.len() != 0 && old_d == new_d {
        spec_item_description(new_d)
    } else {
        spec_desc_side(old_d) + " → "@ + spec_desc_side(new_d) + "\n"@
    }
}

fn desc_side(desc: &str) -> (r: String)
    ensures
        r@ == spec_desc_side(desc@),
{
    if desc.is_empty() {
        String::from_str("_no description_")
    } else {
        escape_markdown(desc)
    }
}

/// Build the description block of an updated item.
pub fn updated_description(old_desc: &str, new_desc: &str) -> (r: String)
    ensures
        r@ == spec_updated_description(old_desc@, new_desc@),
{
    let old_empty = old_desc.is_empty();
    let new_empty = new_desc.is_empty();
    if old_empty && new_empty {
        String::new()
    } else if !old_empty && !new_empty && old_desc.to_owned().eq(&new_desc.to_owned()) {
        item_description(new_desc)
    } else {
        let mut out = desc_side(old_desc);
        out.append(" → ");
        let n = desc_side(new_desc);
        out.append(n.as_str());
        out.append("\n");
        proof {
            assert(out@ =~= spec_updated_description(old_desc@, new_desc@));
        }
        out
    }
}

/// `a - b`, floored at zero. The calendar arithmetic below is written with
/// it so that every value stays a total function of the input.
pub open spec fn spec_sub_floor(a: int, b: int) -> int {
    if a >= b {
        a - b
    } else {
        0
    }
}

fn sub_floor(a: u64, b: u64) -> (r: u64)
    ensures
        r as int == spec_sub_floor(a as int, b as int),
{
    if a >= b {
        a - b
    } else {
        0
    }
}

/// The (year, month, day) of a day count since the epoch, by the standard
/// era-based civil-calendar conversion.
pub open spec fn spec_civil_from_days(days: int) -> (int, int, int) {
    let z = days + 719468;
    let era = z / 146097;
    let doe = z % 146097;
    let yoe = spec_sub_floor(doe + doe / 36524, doe / 1460 + doe / 146096) / 365;
    let y = yoe + era * 400;
    let doy = spec_sub_floor(doe, spec_sub_floor(365 * yoe + yoe / 4, yoe / 100));
    let mp = (5 * doy + 2) / 153;
    let d = spec_sub_floor(doy, (153 * mp + 2) / 5) + 1;
    let m = if mp < 10 {
        mp + 3
    } else {
        mp - 9
    };
    (
        if m <= 2 {
            y + 1
        } else {
            y
        },
        m,
        d,
    )
}

/// A number padded with zeros to at least two digits.
pub open spec fn spec_pad2(n: int) -> Seq<char> {
    if n < 10 {
        "0"@ + spec_udec(n)
    } else {
        spec_udec(n)
    }
}

/// A number padded with zeros to at least four digits.
pub open spec fn spec_pad4(n: int) -> Seq<char> {
    if n < 10 {
        "000"@ + spec_udec(n)
    } else if n < 100 {
        "00"@ + spec_udec(n)
    } else if n < 1000 {
        "0"@ + spec_udec(n)
    } else {
        spec_udec(n)
    }
}

/// The UTC `YYYY-MM-DD-HH:MM:SS` label of an instant in seconds since the
/// epoch.
pub open spec fn spec_timestamp_label(secs: int) -> Seq<char> {
    let date = spec_civil_from_days(secs / 86400);
    let rem = secs % 86400;
    spec_pad4(date.0) + "-"@ + spec_pad2(date.1) + "-"@ + spec_pad2(date.2) + "-"@ + spec_pad2(
        rem / 3600,
    ) + ":"@ + spec_pad2((rem % 3600) / 60) + ":"@ + spec_pad2(rem % 60)
}

fn push_pad2(n: u64, out: &mut String)
    ensures
        final(out)@ == old(out)@ + spec_pad2(n as int),
{
    if n < 10 {
        out.append("0");
    }
    push_decimal(n, out);
    proof {
        assert(final(out)@ =~= old(out)@ + spec_pad2(n as int));
    }
}

fn push_pad4(n: u64, out: &mut String)
    ensures
        final(out)@ == old(out)@ + spec_pad4(n as int),
{
    if n < 10 {
        out.append("000");
    } else if n < 100 {
        out.append("00");
    } else if n < 1000 {
        out.append("0");
    }
    push_decimal(n, out);
    proof {
        assert(final(out)@ =~= old(out)@ + spec_pad4(n as int));
    }
}

fn civil_from_days(days: u64) -> (r: (u64, u64, u64))
    requires
        days <= 0xffff_ffff_ffff,
    ensures
        r.0 as int == spec_civil_from_days(days as int).0,
        r.1 as int == spec_civil_from_days(days as int).1,
        r.2 as int == spec_civil_from_days(days as int).2,
{
    let z = days + 719468;
    let era = z / 146097;
    let doe = z % 146097;
    let yoe = sub_floor(doe + doe / 36524, doe / 1460 + doe / 146096) / 365;
    let y = yoe + era * 400;
    let t = sub_floor(365 * yoe + yoe / 4, yoe / 100);
    let doy = sub_floor(doe, t);
    let mp = (5 * doy + 2) / 153;
    let d = sub_floor(doy, (153 * mp + 2) / 5) + 1;
    let m = if mp < 10 {
        mp + 3
    } else {
        mp - 9
    };
    let year = if m <= 2 {
        y + 1
    } else {
        y
    };
    (year, m, d)
}

/// Format an instant in seconds since the epoch as the UTC
/// `YYYY-MM-DD-HH:MM:SS` label that snapshot names carry.
pub fn utc_timestamp_label(secs: u64) -> (r: String)
    ensures
        r@ == spec_timestamp_label(secs as int),
{
    let days = secs / 86400;
    let rem = secs % 86400;
    let date = civil_from_days(days);
    let mut out = String::new();
    push_pad4(date.0, &mut out);
    out.append("-");
    push_pad2(date.1, &mut out);
    out.append("-");
    push_pad2(date.2, &mut out);
    out.append("-");
    push_pad2(rem / 3600, &mut out);
    out.append(":");
    push_pad2((rem % 3600) / 60, &mut out);
    out.append(":");
    push_pad2(rem % 60, &mut out);
    proof {
        assert(out@ =~= spec_timestamp_label(secs as int));
    }
    out
}

/// The file name a snapshot is persisted under, from its timestamp text.
pub open spec fn spec_snapshot_filename(ts: Seq<char>) -> Seq<char> {
    "snap_"@ + ts + ".json"@
}

/// Build the file name a snapshot is persisted under.
pub fn snapshot_filename(timestamp: &str) -> (r: String)
    ensures
        r@ == spec_snapshot_filename(timestamp@),
{
    let mut out = String::new();
    out.append("snap_");
    out.append(timestamp);
    out.append(".json");
    proof {
        assert(out@ =~= spec_snapshot_filename(timestamp@));
    }
    out
}

proof fn lemma_count_zero(p: Seq<Option<u32>>, i: int)
    requires
        0 <= i <= REGION_COUNT,
        forall|j: int| i <= j < REGION_COUNT ==> p[j] is None,
    ensures
        spec_price_count(p, i) == 0,
    decreases REGION_COUNT - i,
{
    if i < REGION_COUNT {
        lemma_count_zero(p, i + 1);
    }
}

proof fn lemma_count_full(p: Seq<Option<u32>>, i: int)
    requires
        0 <= i <= REGION_COUNT,
        spec_price_count(p, i) == REGION_COUNT - i,
    ensures
        forall|j: int| i <= j < REGION_COUNT ==> p[j] is Some,
    decreases REGION_COUNT - i,
{
    if i < REGION_COUNT {
        lemma_count_bound(p, i + 1);
        lemma_count_full(p, i + 1);
    }
}

proof fn lemma_count_bound(p: Seq<Option<u32>>, i: int)
    requires
        0 <= i <= REGION_COUNT,
    ensures
        0 <= spec_price_count(p, i) <= REGION_COUNT - i,
    decreases REGION_COUNT - i,
{
    if i < REGION_COUNT {
        lemma_count_bound(p, i + 1);
    }
}

proof fn lemma_single_price(p: Seq<Option<u32>>, i: int, ri: int)
    requires
        p.len() == REGION_COUNT,
        spec_price_count(p, 0) == 1,
        0 <= i < REGION_COUNT,
        p[i] is Some,
        0 <= ri < REGION_COUNT,
        p[ri] is Some,
        forall|j: int| 0 <= j < i ==> p[j] is None,
    ensures
        ri == i,
{
    if ri != i {
        lemma_count_two(p, 0, if ri < i {
            ri
        } else {
            i
        }, if ri < i {
            i
        } else {
            ri
        });
    }
}

proof fn lemma_count_two(p: Seq<Option<u32>>, s: int, a: int, b: int)
    requires
        0 <= s <= REGION_COUNT,
        s <= a < b < REGION_COUNT,
        p[a] is Some,
        p[b] is Some,
    ensures
        spec_price_count(p, s) >= 2,
    decreases REGION_COUNT - s,
{
    if s == a {
        lemma_count_one(p, s + 1, b);
    } else {
        lemma_count_two(p, s + 1, a, b);
        lemma_count_bound(p, s + 1);
    }
}

proof fn lemma_count_one(p: Seq<Option<u32>>, s: int, a: int)
    requires
        0 <= s <= REGION_COUNT,
        s <= a < REGION_COUNT,
        p[a] is Some,
    ensures
        spec_price_count(p, s) >= 1,
    decreases REGION_COUNT - s,
{
    if s < a {
        lemma_count_one(p, s + 1, a);
        lemma_count_bound(p, s + 1);
    } else {
        lemma_count_bound(p, s + 1);
    }
}

} // verus!
