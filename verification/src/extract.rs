//! The item extractor: turns the raw fields of one item card into a
//! structured record, or fails naming the selector whose element is missing.
//!
//! Selector evaluation itself is an external collaborator: the caller hands
//! over whatever text each selector found, and this module validates and
//! parses it. A missing field is surfaced, never skipped, because it signals
//! a page-structure change that needs operator attention.

use vstd::prelude::*;

use crate::item::{RawItem, RawModel};

verus! {

/// A required field of an item card.
#[derive(Clone, Copy, Debug, PartialEq, Eq, Structural)]
pub enum Field {
    Title,
    Description,
    PriceText,
    ImageSrc,
    ItemId,
}

/// The selector under which each required field is looked up on the page.
pub open spec fn spec_field_selector(f: Field) -> Seq<char> {
    match f {
        Field::Title => "h4"@,
        Field::Description => "div.shop-item-card__description > p"@,
        Field::PriceText => "span.shop-item-card__price"@,
        Field::ImageSrc => "div.shop-item-card__image > img"@,
        Field::ItemId => "[data-shop-id]"@,
    }
}

impl Field {
    /// The selector this field is looked up under.
    pub fn selector(&self) -> (s: &'static str)
        ensures
            s@ == spec_field_selector(*self),
    {
        match self {
            Field::Title => "h4",
            Field::Description => "div.shop-item-card__description > p",
            Field::PriceText => "span.shop-item-card__price",
            Field::ImageSrc => "div.shop-item-card__image > img",
            Field::ItemId => "[data-shop-id]",
        }
    }
}

/// Why extraction of one item card failed. Any such failure is fatal to the
/// whole scrape cycle.
#[derive(Clone, Copy, Debug, PartialEq, Eq, Structural)]
pub enum ExtractionError {
    /// A required page element or attribute could not be located.
    MissingField(Field),
    /// The price text held no digits, or a value too large for a price.
    InvalidPrice,
    /// The id attribute was not a decimal integer, or overflowed.
    InvalidId,
}

/// The mathematical value of the raw fields found on one item card.
pub ghost struct CardModel {
    pub title: Option<Seq<char>>,
    pub description: Option<Seq<char>>,
    pub price_text: Option<Seq<char>>,
    pub image_src: Option<Seq<char>>,
    pub id_attr: Option<Seq<char>>,
}

/// The raw fields one item card's selectors found, `None` where the selector
/// matched nothing.
pub struct CardFields {
    pub title: Option<String>,
    pub description: Option<String>,
    pub price_text: Option<String>,
    pub image_src: Option<String>,
    pub id_attr: Option<String>,
}

impl View for CardFields {
    type V = CardModel;

    open spec fn view(&self) -> CardModel {
        CardModel {
            title: match self.title {
                Some(s) => Some(s@),
                None => None,
            },
            description: match self.description {
                Some(s) => Some(s@),
                None => None,
            },
            price_text: match self.price_text {
                Some(s) => Some(s@),
                None => None,
            },
            image_src: match self.image_src {
                Some(s) => Some(s@),
                None => None,
            },
            id_attr: match self.id_attr {
                Some(s) => Some(s@),
                None => None,
            },
        }
    }
}

/// True for an ASCII decimal digit.
pub open spec fn is_digit(c: char) -> bool {
    '0' <= c && c <= '9'
}

/// Numeric value of an ASCII decimal digit.
pub open spec fn digit_value(c: char) -> int {
    c as int - '0' as int
}

/// The subsequence of decimal digits of a string, in order.
pub open spec fn spec_digits(s: Seq<char>) -> Seq<char>
    decreases s.len(),
{
    if s.len() == 0 {
        Seq::empty()
    } else if is_digit(s.last()) {
        spec_digits(s.drop_last()).push(s.last())
    } else {
        spec_digits(s.drop_last())
    }
}

/// The value of a sequence of decimal digits, most significant first.
pub open spec fn spec_decimal_value(digits: Seq<char>) -> int
    decreases digits.len(),
{
    if digits.len() == 0 {
        0
    } else {
        spec_decimal_value(digits.drop_last()) * 10 + digit_value(digits.last())
    }
}

/// A digit sequence's value is never negative.
proof fn lemma_decimal_value_nonneg(digits: Seq<char>)
    requires
        forall|i: int| 0 <= i < digits.len() ==> is_digit(#[trigger] digits[i]),
    ensures
        spec_decimal_value(digits) >= 0,
    decreases digits.len(),
{
    if digits.len() > 0 {
        lemma_decimal_value_nonneg(digits.drop_last());
    }
}

/// Every digit of the digit subsequence is a digit.
proof fn lemma_digits_are_digits(s: Seq<char>)
    ensures
        forall|i: int| 0 <= i < spec_digits(s).len() ==> is_digit(#[trigger] spec_digits(s)[i]),
    decreases s.len(),
{
    if s.len() > 0 {
        lemma_digits_are_digits(s.drop_last());
        let d0 = spec_digits(s.drop_last());
        if is_digit(s.last()) {
            assert forall|i: int| 0 <= i < spec_digits(s).len() implies is_digit(
                #[trigger] spec_digits(s)[i],
            ) by {
                if i < d0.len() {
                    assert(is_digit(d0[i]));
                } else {
                    assert(spec_digits(s)[i] == s.last());
                }
            }
        }
    }
}

/// Appending one character extends the digit subsequence exactly when the
/// character is a digit.
proof fn lemma_digits_push(s: Seq<char>, c: char)
    ensures
        spec_digits(s.push(c)) == if is_digit(c) {
            spec_digits(s).push(c)
        } else {
            spec_digits(s)
        },
{
    assert(s.push(c).drop_last() =~= s);
    assert(s.push(c).last() == c);
}

/// Appending a digit multiplies a digit sequence's value by ten and adds it.
proof fn lemma_decimal_value_push(digits: Seq<char>, c: char)
    ensures
        spec_decimal_value(digits.push(c)) == spec_decimal_value(digits) * 10 + digit_value(c),
{
    assert(digits.push(c).drop_last() =~= digits);
    assert(digits.push(c).last() == c);
}

/// What price a price text denotes: the digits are taken out of whatever
/// currency formatting surrounds them and read as an unsigned integer.
/// `None` when no digit occurs or the value does not fit.
pub open spec fn spec_parse_price(s: Seq<char>) -> Option<u32> {
    if spec_digits(s).len() == 0 {
        None
    } else if spec_decimal_value(spec_digits(s)) > u32::MAX {
        None
    } else {
        Some(spec_decimal_value(spec_digits(s)) as u32)
    }
}

/// What id an id attribute denotes: the whole text must be decimal digits.
/// `None` when the text is empty, holds a non-digit, or does not fit.
pub open spec fn spec_parse_id(s: Seq<char>) -> Option<usize> {
    if s.len() == 0 {
        None
    } else if exists|i: int| 0 <= i < s.len() && !is_digit(s[i]) {
        None
    } else if spec_decimal_value(s) > usize::MAX {
        None
    } else {
        Some(spec_decimal_value(s) as usize)
    }
}

/// Extract the price from a price text node: digits only, ignoring currency
/// symbols and formatting.
pub fn parse_price(s: &str) -> (r: Option<u32>)
    ensures
        r == spec_parse_price(s@),
{
    let len = s.unicode_len();
    let mut i: usize = 0;
    let mut seen: bool = false;
    let mut over: bool = false;
    let mut val: u32 = 0;
    while i < len
        invariant
            len == s@.len(),
            i <= len,
            seen == (spec_digits(s@.take(i as int)).len() > 0),
            !over ==> val == spec_decimal_value(spec_digits(s@.take(i as int))),
            over ==> spec_decimal_value(spec_digits(s@.take(i as int))) > u32::MAX,
        decreases len - i,
    {
        let c = s.get_char(i);
        proof {
            assert(s@.take(i + 1) =~= s@.take(i as int).push(s@[i as int]));
            lemma_digits_push(s@.take(i as int), c);
            lemma_decimal_value_push(spec_digits(s@.take(i as int)), c);
            lemma_digits_are_digits(s@.take(i as int));
            lemma_decimal_value_nonneg(spec_digits(s@.take(i as int)));
        }
        if '0' <= c && c <= '9' {
            let d: u32 = (c as u32) - ('0' as u32);
            if !over {
                let wide: u64 = (val as u64) * 10 + (d as u64);
                if wide > u32::MAX as u64 {
                    over = true;
                } else {
                    val = wide as u32;
                }
            }
            seen = true;
        }
        i = i + 1;
    }
    proof {
        assert(s@.take(len as int) =~= s@);
    }
    if seen && !over {
        Some(val)
    } else {
        None
    }
}

/// Parse an id attribute as a strict decimal integer.
pub fn parse_id(s: &str) -> (r: Option<usize>)
    ensures
        r == spec_parse_id(s@),
{
    let len = s.unicode_len();
    if len == 0 {
        return None;
    }
    let mut i: usize = 0;
    let mut over: bool = false;
    let mut val: usize = 0;
    while i < len
        invariant
            len == s@.len(),
            0 < len,
            i <= len,
            forall|j: int| 0 <= j < i ==> is_digit(#[trigger] s@[j]),
            !over ==> val == spec_decimal_value(s@.take(i as int)),
            over ==> spec_decimal_value(s@.take(i as int)) > usize::MAX,
        decreases len - i,
    {
        let c = s.get_char(i);
        if c < '0' || c > '9' {
            return None;
        }
        proof {
            assert(s@.take(i + 1) =~= s@.take(i as int).push(s@[i as int]));
            lemma_decimal_value_push(s@.take(i as int), c);
            assert(forall|j: int|
                0 <= j < s@.take(i as int).len() ==> is_digit(#[trigger] s@.take(i as int)[j]));
            lemma_decimal_value_nonneg(s@.take(i as int));
        }
        let d: usize = ((c as u32) - ('0' as u32)) as usize;
        if !over {
            if val > (usize::MAX - d) / 10 {
                over = true;
            } else {
                val = val * 10 + d;
            }
        }
        i = i + 1;
    }
    proof {
        assert(s@.take(len as int) =~= s@);
    }
    if over {
        None
    } else {
        Some(val)
    }
}

/// What `extract_item` returns for given card fields and image identity.
/// Fields are demanded in the order the card is read: title, description,
/// price text (located, then parsed), image source, id attribute (located,
/// then parsed).
pub open spec fn spec_extract(f: CardModel, image_id: int) -> Result<RawModel, ExtractionError> {
    if f.title is None {
        Err(ExtractionError::MissingField(Field::Title))
    } else if f.description is None {
        Err(ExtractionError::MissingField(Field::Description))
    } else if f.price_text is None {
        Err(ExtractionError::MissingField(Field::PriceText))
    } else if spec_parse_price(f.price_text.unwrap()) is None {
        Err(ExtractionError::InvalidPrice)
    } else if f.image_src is None {
        Err(ExtractionError::MissingField(Field::ImageSrc))
    } else if f.id_attr is None {
        Err(ExtractionError::MissingField(Field::ItemId))
    } else if spec_parse_id(f.id_attr.unwrap()) is None {
        Err(ExtractionError::InvalidId)
    } else {
        Ok(
            RawModel {
                title: f.title.unwrap(),
                description: f.description.unwrap(),
                price: spec_parse_price(f.price_text.unwrap()).unwrap(),
                image_url: f.image_src.unwrap(),
                image_id,
                id: spec_parse_id(f.id_attr.unwrap()).unwrap() as int,
            },
        )
    }
}

/// Turn one card's raw fields into a structured record. The image identity
/// is the source system's stable blob identifier for the card's image,
/// resolved by an external collaborator and injected here.
pub fn extract_item(fields: CardFields, image_id: usize) -> (r: Result<RawItem, ExtractionError>)
    ensures
        (r is Ok) == (spec_extract(fields@, image_id as int) is Ok),
        r matches Ok(raw) ==> raw@ == spec_extract(fields@, image_id as int)->Ok_0,
        r matches Err(e) ==> e == spec_extract(fields@, image_id as int)->Err_0,
{
    let title = match fields.title {
        Some(t) => t,
        None => {
            return Err(ExtractionError::MissingField(Field::Title));
        },
    };
    let description = match fields.description {
        Some(d) => d,
        None => {
            return Err(ExtractionError::MissingField(Field::Description));
        },
    };
    let price_text = match fields.price_text {
        Some(p) => p,
        None => {
            return Err(ExtractionError::MissingField(Field::PriceText));
        },
    };
    let price = match parse_price(price_text.as_str()) {
        Some(p) => p,
        None => {
            return Err(ExtractionError::InvalidPrice);
        },
    };
    let image_url = match fields.image_src {
        Some(u) => u,
        None => {
            return Err(ExtractionError::MissingField(Field::ImageSrc));
        },
    };
    let id_attr = match fields.id_attr {
        Some(a) => a,
        None => {
            return Err(ExtractionError::MissingField(Field::ItemId));
        },
    };
    let id = match parse_id(id_attr.as_str()) {
        Some(n) => n,
        None => {
            return Err(ExtractionError::InvalidId);
        },
    };
    Ok(RawItem { title, description, price, image_url, image_id, id })
}

} // verus!
