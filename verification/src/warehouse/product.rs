//! What the warehouse knows of a product: its identifier, name, amount,
//! handling category and entry time.

use vstd::prelude::*;
use vstd::string::StringExecFns;
use crate::text::{decimal, signed_decimal, push_decimal, push_signed_decimal};
use crate::warehouse::prompts::{julian_day, valid_calendar_date};
use time::UtcDateTime;
use core::cmp::Ordering;

verus! {

/// The entry times `time::UtcDateTime` holds, as nanoseconds since the
/// Unix epoch: from -9999-01-01 00:00:00 to 9999-12-31 23:59:59.999999999.
pub open spec fn timestamp_in_range(unix_nanos: i128) -> bool {
    -377705116800000000000 <= unix_nanos <= 253402300799999999999
}

/// The current time (`UtcDateTime::now`), in nanoseconds since the Unix
/// epoch; of the value only its range is known.
#[verifier::external_body]
pub(crate) fn utc_now() -> (r: i128)
    ensures
        timestamp_in_range(r),
{
    UtcDateTime::now().unix_timestamp_nanos()
}

/// The earliest time `UtcDateTime` holds (`UtcDateTime::MIN`), in
/// nanoseconds since the Unix epoch.
#[verifier::external_body]
pub(crate) fn utc_min() -> (r: i128)
    ensures
        r == -377705116800000000000i128,
{
    UtcDateTime::MIN.unix_timestamp_nanos()
}

/// `s` without zeros at its end, its first character kept.
pub open spec fn without_trailing_zeros(s: Seq<char>) -> Seq<char>
    decreases s.len(),
{
    if s.len() > 1 && s.last() == '0' {
        without_trailing_zeros(s.drop_last())
    } else {
        s
    }
}

/// The fraction of a second as `time` shows it: nine digits, then the
/// zeros at the end dropped down to one digit.
pub open spec fn fraction_text(nanos: nat) -> Seq<char> {
    without_trailing_zeros(padded(nanos, 9))
}

/// The text `time::UtcDateTime` displays for the time this many
/// nanoseconds after the Unix epoch (1970-01-01, Julian day 2440588):
/// `YYYY-MM-DD H:MM:SS.f +00`.
pub open spec fn utc_text(unix_nanos: i128) -> Seq<char> {
    let seconds = unix_nanos / 1_000_000_000;
    let nanos = unix_nanos % 1_000_000_000;
    let day = seconds / 86400;
    let second_of_day = seconds % 86400;
    date_text((day + 2440588) as i32) + seq![' '] + decimal((second_of_day / 3600) as nat) + seq![':']
        + padded(((second_of_day % 3600) / 60) as nat, 2) + seq![':'] + padded((second_of_day % 60) as nat, 2)
        + seq!['.'] + fraction_text(nanos as nat) + " +00"@
}

/// `UtcDateTime::from_unix_timestamp_nanos` and the time's `Display`: the
/// text of the time this many nanoseconds after the Unix epoch,
/// `utc_text(unix_nanos)`.
#[verifier::external_body]
fn timestamp_text(unix_nanos: i128) -> (r: String)
    requires
        timestamp_in_range(unix_nanos),
    ensures
        r@ == utc_text(unix_nanos),
{
    match UtcDateTime::from_unix_timestamp_nanos(unix_nanos) {
        Ok(t) => t.to_string(),
        Err(_) => String::new(),
    }
}

/// How a product must be stored. Dates are Julian day numbers.
#[derive(Clone, Copy, PartialEq, Eq, Structural, Debug, Hash)]
pub enum ProductCategory {
    Normal,
    /// Expires on `expiry_date`; may not be stored above row `max_row`.
    Fragile { expiry_date: i32, max_row: usize },
    /// Occupies `zone_count` zones after its own, on the same shelf.
    Oversized { zone_count: usize },
}

/// The decimal text of `n`, with zeros before it up to `width` digits.
pub open spec fn padded(n: nat, width: nat) -> Seq<char> {
    let d = decimal(n);
    if d.len() < width {
        Seq::new((width - d.len()) as nat, |i: int| '0') + d
    } else {
        d
    }
}

/// A year as `time::Date` shows it: four digits at least, `-` before a
/// negative year.
pub open spec fn year_text(year: int) -> Seq<char> {
    if year < 0 {
        seq!['-'] + padded((-year) as nat, 4)
    } else {
        padded(year as nat, 4)
    }
}

/// The calendar date with Julian day number `julian_day`.
pub open spec fn calendar_date_of(jd: i32) -> (i32, u8, u8) {
    choose|y: i32, m: u8, d: u8| valid_calendar_date(y, m, d) && julian_day(y, m, d) == jd
}

/// The text `time::Date` displays (`YYYY-MM-DD`) for the date with this
/// Julian day number.
pub open spec fn date_text(jd: i32) -> Seq<char> {
    let (y, m, d) = calendar_date_of(jd);
    year_text(y as int) + seq!['-'] + padded(m as nat, 2) + seq!['-'] + padded(d as nat, 2)
}

/// The Julian day numbers of the dates `time::Date` holds, from
/// -9999-01-01 to 9999-12-31.
pub open spec fn julian_in_range(julian_day: i32) -> bool {
    -1930999 <= julian_day <= 5373484
}

/// `Date::from_julian_day` and the date's `Display`: the text of the date
/// with this Julian day number, `date_text(julian_day)`.
#[verifier::external_body]
fn julian_date_text(julian_day: i32) -> (r: String)
    requires
        julian_in_range(julian_day),
    ensures
        r@ == date_text(julian_day),
{
    match time::Date::from_julian_day(julian_day) {
        Ok(d) => d.to_string(),
        Err(_) => String::new(),
    }
}

/// How a category reads.
pub open spec fn category_text(q: ProductCategory) -> Seq<char> {
    match q {
        ProductCategory::Normal => "Normal"@,
        ProductCategory::Fragile { expiry_date, max_row } => "Fragile - Expires "@ + date_text(expiry_date)
            + ", cannot be located above row "@ + decimal(max_row as nat),
        ProductCategory::Oversized { zone_count } => "Oversized - Occupies "@ + decimal(zone_count as nat)
            + " zones"@,
    }
}

/// A fragile category's date is one `time::Date` can hold.
pub open spec fn category_describable(q: ProductCategory) -> bool {
    q matches ProductCategory::Fragile { expiry_date, .. } ==> julian_in_range(expiry_date)
}

impl ProductCategory {
    /// How the category reads (`Normal`, `Fragile - Expires <date>, cannot
    /// be located above row <row>`, `Oversized - Occupies <n> zones`).
    pub fn describe(&self) -> (s: String)
        requires
            category_describable(*self),
        ensures
            s@ == category_text(*self),
    {
        match self {
            ProductCategory::Normal => String::from_str("Normal"),
            ProductCategory::Fragile { expiry_date, max_row } => {
                let mut s = String::from_str("Fragile - Expires ");
                let d = julian_date_text(*expiry_date);
                s.append(d.as_str());
                s.append(", cannot be located above row ");
                push_decimal(&mut s, *max_row as u64);
                s
            },
            ProductCategory::Oversized { zone_count } => {
                let mut s = String::from_str("Oversized - Occupies ");
                push_decimal(&mut s, *zone_count as u64);
                s.append(" zones");
                s
            },
        }
    }

    /// Whether `describe` can show this category (`category_describable`).
    pub fn describable(&self) -> (b: bool)
        ensures
            b == category_describable(*self),
    {
        match self {
            ProductCategory::Fragile { expiry_date, .. } => -1930999 <= *expiry_date && *expiry_date <= 5373484,
            _ => true,
        }
    }
}

/// A product that the warehouse can store.
pub trait Product: Sized {
    spec fn spec_identifier(&self) -> i64;

    spec fn spec_name(&self) -> Seq<char>;

    spec fn spec_amount(&self) -> u64;

    spec fn spec_quality(&self) -> ProductCategory;

    /// When the product entered the warehouse, in nanoseconds since the
    /// Unix epoch.
    spec fn spec_timestamp(&self) -> i128;

    fn identifier(&self) -> (r: &i64)
        ensures
            *r == self.spec_identifier(),
    ;

    fn name(&self) -> (r: &String)
        ensures
            r@ == self.spec_name(),
    ;

    fn amount(&self) -> (r: u64)
        ensures
            r == self.spec_amount(),
    ;

    fn quality(&self) -> (r: &ProductCategory)
        ensures
            *r == self.spec_quality(),
    ;

    fn timestamp(&self) -> (r: i128)
        ensures
            r == self.spec_timestamp(),
    ;

    fn set_timestamp(&mut self, timestamp: i128)
        requires
            timestamp_in_range(timestamp),
        ensures
            final(self).spec_timestamp() == timestamp,
            final(self).spec_identifier() == old(self).spec_identifier(),
            final(self).spec_name() == old(self).spec_name(),
            final(self).spec_amount() == old(self).spec_amount(),
            final(self).spec_quality() == old(self).spec_quality(),
    ;
}

/// A plain product record.
pub struct AnyOldProduct {
    identifier: i64,
    name: String,
    amount: u64,
    quality: ProductCategory,
    timestamp: i128,
}

impl AnyOldProduct {
    /// The entry time is one `UtcDateTime` holds.
    #[verifier::type_invariant]
    closed spec fn entry_time_valid(&self) -> bool {
        timestamp_in_range(self.timestamp)
    }

    /// A product that enters the warehouse now.
    pub fn new(identifier: i64, name: String, amount: u64, quality: ProductCategory) -> (r: Self)
        ensures
            r.spec_identifier() == identifier,
            r.spec_name() == name@,
            r.spec_amount() == amount,
            r.spec_quality() == quality,
            timestamp_in_range(r.spec_timestamp()),
    {
        let timestamp = utc_now();
        AnyOldProduct { identifier, name, amount, quality, timestamp }
    }

    /// A product with the given fields, entry time included.
    pub fn with_timestamp(
        identifier: i64,
        name: String,
        amount: u64,
        quality: ProductCategory,
        timestamp: i128,
    ) -> (r: Self)
        requires
            timestamp_in_range(timestamp),
        ensures
            r.spec_identifier() == identifier,
            r.spec_name() == name@,
            r.spec_amount() == amount,
            r.spec_quality() == quality,
            r.spec_timestamp() == timestamp,
    {
        AnyOldProduct { identifier, name, amount, quality, timestamp }
    }
}

/// How a product reads, up to the time it entered the warehouse.
pub open spec fn product_text_head(id: i64, name: Seq<char>, amount: u64, q: ProductCategory) -> Seq<char> {
    "Product ID "@ + signed_decimal(id as int) + ":\n\tName: "@ + name + "\n\tAmount: "@ + decimal(amount as nat)
        + "\n\tQuality: "@ + category_text(q) + "\n\tEntered the warehouse at: "@
}

impl AnyOldProduct {
    /// How the product reads: identifier, name, amount and category on
    /// lines of their own, then the time it entered the warehouse.
    pub fn describe(&self) -> (s: String)
        requires
            category_describable(self.spec_quality()),
        ensures
            s@ == product_text_head(self.spec_identifier(), self.spec_name(), self.spec_amount(), self.spec_quality())
                + utc_text(self.spec_timestamp()),
    {
        proof {
            use_type_invariant(self);
        }
        let mut s = String::from_str("Product ID ");
        push_signed_decimal(&mut s, self.identifier);
        s.append(":\n\tName: ");
        s.append(self.name.as_str());
        s.append("\n\tAmount: ");
        push_decimal(&mut s, self.amount);
        s.append("\n\tQuality: ");
        let q = self.quality.describe();
        s.append(q.as_str());
        s.append("\n\tEntered the warehouse at: ");
        let ghost head = s@;
        let t = timestamp_text(self.timestamp);
        s.append(t.as_str());
        assert(head =~= product_text_head(self.spec_identifier(), self.spec_name(), self.spec_amount(), self.spec_quality()));
        s
    }
}

impl Product for AnyOldProduct {
    closed spec fn spec_identifier(&self) -> i64 {
        self.identifier
    }

    closed spec fn spec_name(&self) -> Seq<char> {
        self.name@
    }

    closed spec fn spec_amount(&self) -> u64 {
        self.amount
    }

    closed spec fn spec_quality(&self) -> ProductCategory {
        self.quality
    }

    closed spec fn spec_timestamp(&self) -> i128 {
        self.timestamp
    }

    fn identifier(&self) -> (r: &i64) {
        &self.identifier
    }

    fn name(&self) -> (r: &String) {
        &self.name
    }

    fn amount(&self) -> (r: u64) {
        self.amount
    }

    fn quality(&self) -> (r: &ProductCategory) {
        &self.quality
    }

    fn timestamp(&self) -> (r: i128)
        ensures
            timestamp_in_range(r),
    {
        proof {
            use_type_invariant(self);
        }
        self.timestamp
    }

    fn set_timestamp(&mut self, timestamp: i128) {
        self.timestamp = timestamp;
    }
}

impl Default for AnyOldProduct {
    fn default() -> (r: Self)
        ensures
            r.spec_identifier() == 0,
            r.spec_name() == Seq::<char>::empty(),
            r.spec_amount() == 0,
            r.spec_quality() == ProductCategory::Normal,
            r.spec_timestamp() == -377705116800000000000i128,
    {
        AnyOldProduct {
            identifier: 0,
            name: String::new(),
            amount: 0,
            quality: ProductCategory::Normal,
            timestamp: utc_min(),
        }
    }
}

/// Products are equal when their identifiers are.
impl PartialEq for AnyOldProduct {
    fn eq(&self, other: &Self) -> (r: bool) {
        self.identifier == other.identifier
    }
}

impl vstd::std_specs::cmp::PartialEqSpecImpl for AnyOldProduct {
    open spec fn obeys_eq_spec() -> bool {
        true
    }

    open spec fn eq_spec(&self, other: &Self) -> bool {
        self.spec_identifier() == other.spec_identifier()
    }
}

impl Eq for AnyOldProduct {

}

/// Products are ordered by identifier.
impl PartialOrd for AnyOldProduct {
    fn partial_cmp(&self, other: &Self) -> (r: Option<Ordering>) {
        if self.identifier < other.identifier {
            Some(Ordering::Less)
        } else if self.identifier == other.identifier {
            Some(Ordering::Equal)
        } else {
            Some(Ordering::Greater)
        }
    }
}

impl vstd::std_specs::cmp::PartialOrdSpecImpl for AnyOldProduct {
    open spec fn obeys_partial_cmp_spec() -> bool {
        true
    }

    open spec fn partial_cmp_spec(&self, other: &Self) -> Option<Ordering> {
        if self.spec_identifier() < other.spec_identifier() {
            Some(Ordering::Less)
        } else if self.spec_identifier() == other.spec_identifier() {
            Some(Ordering::Equal)
        } else {
            Some(Ordering::Greater)
        }
    }
}

/// Why a change to the warehouse was refused.
#[derive(Debug, Clone, Copy, PartialEq, Eq, Structural)]
pub enum ModificationError {
    Occupied,
    NotFound,
    Full,
    NotAllowed,
    Placeholder,
    Fragile,
    TooBig,
}

impl ModificationError {
    /// The message that describes the error.
    pub fn message(&self) -> (r: &'static str)
        ensures
            r == (match self {
                ModificationError::Occupied => "Location in store already has a product",
                ModificationError::NotFound => "No product in location, but one is required",
                ModificationError::Full => "Could not find a place for the product",
                ModificationError::NotAllowed => "Product is not allowed in due to current filters",
                ModificationError::Placeholder =>
                    "Placeholders cannot be manipulated directly, operate on the item instead",
                ModificationError::Fragile => "Fragile item cannot be placed at location specified",
                ModificationError::TooBig => "Oversized item does not fit inside warehouse",
            }),
    {
        match self {
            ModificationError::Occupied => "Location in store already has a product",
            ModificationError::NotFound => "No product in location, but one is required",
            ModificationError::Full => "Could not find a place for the product",
            ModificationError::NotAllowed => "Product is not allowed in due to current filters",
            ModificationError::Placeholder =>
                "Placeholders cannot be manipulated directly, operate on the item instead",
            ModificationError::Fragile => "Fragile item cannot be placed at location specified",
            ModificationError::TooBig => "Oversized item does not fit inside warehouse",
        }
    }
}

/// Browsing the store was abandoned.
pub struct BrowserError;

} // verus!
