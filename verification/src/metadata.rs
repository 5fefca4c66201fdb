//! Recording metadata and its JSON document.
//!
//! Dates and times are held as plain calendar fields; the JSON
//! rendering (zero-padded ISO date and time) is specified exactly, so
//! the merge step can splice the document byte for byte.

use vstd::prelude::*;

use crate::numfmt::{
    lemma_digits_len, lemma_pow10_vals, pow10, push_digits, push_padded, spec_digits,
};

verus! {

/// A calendar date in the proleptic Gregorian calendar.
pub struct RecipeDate {
    pub year: u16,
    pub month: u16,
    pub day: u16,
}

/// A time of day, whole seconds.
pub struct RecipeTime {
    pub hour: u16,
    pub minute: u16,
    pub second: u16,
}

pub open spec fn is_leap_year(y: int) -> bool {
    (y % 4 == 0 && y % 100 != 0) || y % 400 == 0
}

pub open spec fn days_in_month(y: int, m: int) -> int {
    if m == 1 || m == 3 || m == 5 || m == 7 || m == 8 || m == 10 || m == 12 {
        31
    } else if m == 4 || m == 6 || m == 9 || m == 11 {
        30
    } else if m == 2 {
        if is_leap_year(y) {
            29
        } else {
            28
        }
    } else {
        0
    }
}

pub open spec fn valid_date(y: int, m: int, d: int) -> bool {
    1 <= m <= 12 && 1 <= d <= days_in_month(y, m)
}

pub open spec fn valid_time(h: int, mi: int, s: int) -> bool {
    0 <= h < 24 && 0 <= mi < 60 && 0 <= s < 60
}

impl RecipeDate {
    pub open spec fn wf(self) -> bool {
        valid_date(self.year as int, self.month as int, self.day as int)
    }
}

impl RecipeTime {
    pub open spec fn wf(self) -> bool {
        valid_time(self.hour as int, self.minute as int, self.second as int)
    }
}

/// `x` zero-padded to two digits (`x < 100`).
pub open spec fn spec_pad2(x: nat) -> Seq<u8> {
    spec_digits((x + 100) as nat).subrange(1, 3)
}

/// `x` zero-padded to four digits when it fits, plain digits otherwise.
pub open spec fn spec_pad4(x: nat) -> Seq<u8> {
    if x < 10000 {
        spec_digits((x + 10000) as nat).subrange(1, 5)
    } else {
        spec_digits(x)
    }
}

/// The ISO rendering `YYYY-MM-DD` of a date.
pub open spec fn spec_date_json(d: RecipeDate) -> Seq<u8> {
    spec_pad4(d.year as nat) + seq![45u8] + spec_pad2(d.month as nat) + seq![45u8] + spec_pad2(
        d.day as nat,
    )
}

/// The rendering `HH:MM:SS` of a time.
pub open spec fn spec_time_json(t: RecipeTime) -> Seq<u8> {
    spec_pad2(t.hour as nat) + seq![58u8] + spec_pad2(t.minute as nat) + seq![58u8] + spec_pad2(
        t.second as nat,
    )
}

/// Appends the two-digit rendering of `x < 100`.
pub fn push_pad2(x: u16, out: &mut Vec<u8>)
    requires
        x < 100,
    ensures
        final(out)@ == old(out)@ + spec_pad2(x as nat),
{
    proof {
        lemma_pow10_vals();
        lemma_digits_len((x + 100) as nat, 3);
    }
    push_padded(x as u64, 100, out);
    assert(out@ =~= old(out)@ + spec_pad2(x as nat));
}

/// Appends the four-or-more-digit rendering of `x`.
pub fn push_pad4(x: u16, out: &mut Vec<u8>)
    ensures
        final(out)@ == old(out)@ + spec_pad4(x as nat),
{
    if x < 10000 {
        proof {
            lemma_pow10_vals();
            lemma_digits_len((x + 10000) as nat, 5);
        }
        push_padded(x as u64, 10000, out);
    } else {
        push_digits(x as u64, out);
    }
    assert(out@ =~= old(out)@ + spec_pad4(x as nat));
}

/// Appends `YYYY-MM-DD`.
pub fn push_date(d: &RecipeDate, out: &mut Vec<u8>)
    requires
        d.month < 100,
        d.day < 100,
    ensures
        final(out)@ == old(out)@ + spec_date_json(*d),
{
    push_pad4(d.year, out);
    out.push(45);
    push_pad2(d.month, out);
    out.push(45);
    push_pad2(d.day, out);
    assert(out@ =~= old(out)@ + spec_date_json(*d));
}

/// Appends `HH:MM:SS`.
pub fn push_time(t: &RecipeTime, out: &mut Vec<u8>)
    requires
        t.hour < 100,
        t.minute < 100,
        t.second < 100,
    ensures
        final(out)@ == old(out)@ + spec_time_json(*t),
{
    push_pad2(t.hour, out);
    out.push(58);
    push_pad2(t.minute, out);
    out.push(58);
    push_pad2(t.second, out);
    assert(out@ =~= old(out)@ + spec_time_json(*t));
}

/// The metadata of one recording, as written to its own JSON document.
/// `steps` holds the label text of each used channel; `units` is a
/// whole number rendered with one trailing zero of fraction.
pub struct Metadata {
    pub size: u32,
    pub date_of_recipe: RecipeDate,
    pub time_of_recipe: RecipeTime,
    pub number_of_steps: u16,
    pub steps: Vec<Vec<u8>>,
    pub units: u32,
    pub granularity: u16,
}

/// A JSON string: the label bytes between double quotes. Labels come
/// from a fixed table of plain ASCII, so no escaping is involved.
pub open spec fn spec_quoted(l: Seq<u8>) -> Seq<u8> {
    seq![34u8] + l + seq![34u8]
}

/// Comma-separated quoted labels.
pub open spec fn spec_label_list(ls: Seq<Seq<u8>>) -> Seq<u8>
    decreases ls.len(),
{
    if ls.len() == 0 {
        seq![]
    } else if ls.len() == 1 {
        spec_quoted(ls[0])
    } else {
        spec_label_list(ls.drop_last()) + seq![44u8] + spec_quoted(ls.last())
    }
}

/// The literal `{"size":`.
pub open spec fn lit_size_key() -> Seq<u8> {
    seq![123u8, 34u8, 115u8, 105u8, 122u8, 101u8, 34u8, 58u8]
}

/// The literal `,"date_of_recipe":"`.
pub open spec fn lit_date_key() -> Seq<u8> {
    seq![
        44u8, 34u8, 100u8, 97u8, 116u8, 101u8, 95u8, 111u8, 102u8, 95u8, 114u8, 101u8, 99u8,
        105u8, 112u8, 101u8, 34u8, 58u8, 34u8,
    ]
}

/// The literal `","time_of_recipe":"`.
pub open spec fn lit_time_key() -> Seq<u8> {
    seq![
        34u8, 44u8, 34u8, 116u8, 105u8, 109u8, 101u8, 95u8, 111u8, 102u8, 95u8, 114u8, 101u8,
        99u8, 105u8, 112u8, 101u8, 34u8, 58u8, 34u8,
    ]
}

/// The literal `","number_of_steps":`.
pub open spec fn lit_steps_count_key() -> Seq<u8> {
    seq![
        34u8, 44u8, 34u8, 110u8, 117u8, 109u8, 98u8, 101u8, 114u8, 95u8, 111u8, 102u8, 95u8,
        115u8, 116u8, 101u8, 112u8, 115u8, 34u8, 58u8,
    ]
}

/// The literal `,"steps":[`.
pub open spec fn lit_steps_key() -> Seq<u8> {
    seq![44u8, 34u8, 115u8, 116u8, 101u8, 112u8, 115u8, 34u8, 58u8, 91u8]
}

/// The literal `],"units":`.
pub open spec fn lit_units_key() -> Seq<u8> {
    seq![93u8, 44u8, 34u8, 117u8, 110u8, 105u8, 116u8, 115u8, 34u8, 58u8]
}

/// The literal `.0,"granularity":`.
pub open spec fn lit_granularity_key() -> Seq<u8> {
    seq![
        46u8, 48u8, 44u8, 34u8, 103u8, 114u8, 97u8, 110u8, 117u8, 108u8, 97u8, 114u8, 105u8,
        116u8, 121u8, 34u8, 58u8,
    ]
}

/// The metadata document over its plain field values: one JSON
/// object with the fields in declaration order, dates and times
/// quoted, labels a string array, `units` rendered as `<units>.0`.
pub open spec fn spec_metadata_json_fields(
    size: nat,
    date: RecipeDate,
    time: RecipeTime,
    number_of_steps: nat,
    labels: Seq<Seq<u8>>,
    units: nat,
    granularity: nat,
) -> Seq<u8> {
    lit_size_key() + spec_digits(size) + lit_date_key() + spec_date_json(date) + lit_time_key()
        + spec_time_json(time) + lit_steps_count_key() + spec_digits(number_of_steps)
        + lit_steps_key() + spec_label_list(labels) + lit_units_key() + spec_digits(units)
        + lit_granularity_key() + spec_digits(granularity) + seq![125u8]
}

/// The metadata document of one `Metadata` value.
pub open spec fn spec_metadata_json(m: Metadata) -> Seq<u8> {
    spec_metadata_json_fields(
        m.size as nat,
        m.date_of_recipe,
        m.time_of_recipe,
        m.number_of_steps as nat,
        m.steps.deep_view(),
        m.units as nat,
        m.granularity as nat,
    )
}

fn push_lit_size_key(out: &mut Vec<u8>)
    ensures
        final(out)@ == old(out)@ + lit_size_key(),
{
    out.push(123);
    out.push(34);
    out.push(115);
    out.push(105);
    out.push(122);
    out.push(101);
    out.push(34);
    out.push(58);
    assert(out@ =~= old(out)@ + lit_size_key());
}

fn push_lit_date_key(out: &mut Vec<u8>)
    ensures
        final(out)@ == old(out)@ + lit_date_key(),
{
    out.push(44);
    out.push(34);
    out.push(100);
    out.push(97);
    out.push(116);
    out.push(101);
    out.push(95);
    out.push(111);
    out.push(102);
    out.push(95);
    out.push(114);
    out.push(101);
    out.push(99);
    out.push(105);
    out.push(112);
    out.push(101);
    out.push(34);
    out.push(58);
    out.push(34);
    assert(out@ =~= old(out)@ + lit_date_key());
}

fn push_lit_time_key(out: &mut Vec<u8>)
    ensures
        final(out)@ == old(out)@ + lit_time_key(),
{
    out.push(34);
    out.push(44);
    out.push(34);
    out.push(116);
    out.push(105);
    out.push(109);
    out.push(101);
    out.push(95);
    out.push(111);
    out.push(102);
    out.push(95);
    out.push(114);
    out.push(101);
    out.push(99);
    out.push(105);
    out.push(112);
    out.push(101);
    out.push(34);
    out.push(58);
    out.push(34);
    assert(out@ =~= old(out)@ + lit_time_key());
}

fn push_lit_steps_count_key(out: &mut Vec<u8>)
    ensures
        final(out)@ == old(out)@ + lit_steps_count_key(),
{
    out.push(34);
    out.push(44);
    out.push(34);
    out.push(110);
    out.push(117);
    out.push(109);
    out.push(98);
    out.push(101);
    out.push(114);
    out.push(95);
    out.push(111);
    out.push(102);
    out.push(95);
    out.push(115);
    out.push(116);
    out.push(101);
    out.push(112);
    out.push(115);
    out.push(34);
    out.push(58);
    assert(out@ =~= old(out)@ + lit_steps_count_key());
}

fn push_lit_steps_key(out: &mut Vec<u8>)
    ensures
        final(out)@ == old(out)@ + lit_steps_key(),
{
    out.push(44);
    out.push(34);
    out.push(115);
    out.push(116);
    out.push(101);
    out.push(112);
    out.push(115);
    out.push(34);
    out.push(58);
    out.push(91);
    assert(out@ =~= old(out)@ + lit_steps_key());
}

fn push_lit_units_key(out: &mut Vec<u8>)
    ensures
        final(out)@ == old(out)@ + lit_units_key(),
{
    out.push(93);
    out.push(44);
    out.push(34);
    out.push(117);
    out.push(110);
    out.push(105);
    out.push(116);
    out.push(115);
    out.push(34);
    out.push(58);
    assert(out@ =~= old(out)@ + lit_units_key());
}

fn push_lit_granularity_key(out: &mut Vec<u8>)
    ensures
        final(out)@ == old(out)@ + lit_granularity_key(),
{
    out.push(46);
    out.push(48);
    out.push(44);
    out.push(34);
    out.push(103);
    out.push(114);
    out.push(97);
    out.push(110);
    out.push(117);
    out.push(108);
    out.push(97);
    out.push(114);
    out.push(105);
    out.push(116);
    out.push(121);
    out.push(34);
    out.push(58);
    assert(out@ =~= old(out)@ + lit_granularity_key());
}

impl Metadata {
    pub open spec fn wf(self) -> bool {
        self.date_of_recipe.wf() && self.time_of_recipe.wf()
    }

    /// Renders the metadata document.
    pub fn to_json(&self) -> (r: Vec<u8>)
        requires
            self.wf(),
        ensures
            r@ == spec_metadata_json(*self),
    {
        let mut out: Vec<u8> = Vec::new();
        let ghost m = *self;
        push_lit_size_key(&mut out);
        push_digits(self.size as u64, &mut out);
        assert(out@ =~= lit_size_key() + spec_digits(m.size as nat));
        push_lit_date_key(&mut out);
        push_date(&self.date_of_recipe, &mut out);
        assert(out@ =~= lit_size_key() + spec_digits(m.size as nat) + lit_date_key()
            + spec_date_json(m.date_of_recipe));
        push_lit_time_key(&mut out);
        push_time(&self.time_of_recipe, &mut out);
        assert(out@ =~= lit_size_key() + spec_digits(m.size as nat) + lit_date_key()
            + spec_date_json(m.date_of_recipe) + lit_time_key() + spec_time_json(
            m.time_of_recipe,
        ));
        push_lit_steps_count_key(&mut out);
        push_digits(self.number_of_steps as u64, &mut out);
        push_lit_steps_key(&mut out);
        push_labels(&self.steps, &mut out);
        assert(out@ =~= lit_size_key() + spec_digits(m.size as nat) + lit_date_key()
            + spec_date_json(m.date_of_recipe) + lit_time_key() + spec_time_json(
            m.time_of_recipe,
        ) + lit_steps_count_key() + spec_digits(m.number_of_steps as nat) + lit_steps_key()
            + spec_label_list(m.steps.deep_view()));
        push_lit_units_key(&mut out);
        push_digits(self.units as u64, &mut out);
        push_lit_granularity_key(&mut out);
        push_digits(self.granularity as u64, &mut out);
        out.push(125);
        assert(out@ =~= spec_metadata_json(*self));
        out
    }
}

/// Appends the comma-separated quoted labels.
fn push_labels(ls: &Vec<Vec<u8>>, out: &mut Vec<u8>)
    ensures
        final(out)@ == old(out)@ + spec_label_list(ls.deep_view()),
{
    let mut i: usize = 0;
    while i < ls.len()
        invariant
            0 <= i <= ls@.len(),
            ls.deep_view().len() == ls@.len(),
            out@ == old(out)@ + spec_label_list(ls.deep_view().take(i as int)),
        decreases ls@.len() - i,
    {
        if i > 0 {
            out.push(44);
        }
        out.push(34);
        let mut j: usize = 0;
        let ghost mid = out@;
        while j < ls[i].len()
            invariant
                0 <= j <= ls@[i as int]@.len(),
                0 <= i < ls@.len(),
                out@ == mid + ls@[i as int]@.take(j as int),
            decreases ls@[i as int]@.len() - j,
        {
            let b = ls[i][j];
            out.push(b);
            proof {
                assert(ls@[i as int]@.take(j + 1) =~= ls@[i as int]@.take(j as int) + seq![
                    ls@[i as int]@[j as int],
                ]);
            }
            j = j + 1;
        }
        out.push(34);
        proof {
            let lsd = ls.deep_view();
            assert(ls@[i as int]@.take(ls@[i as int]@.len() as int) =~= lsd[i as int]);
            assert(lsd.take(i + 1).drop_last() =~= lsd.take(i as int));
            assert(lsd.take(i + 1).last() == lsd[i as int]);
            if i == 0 {
                assert(out@ =~= old(out)@ + spec_label_list(lsd.take(i + 1)));
            } else {
                assert(out@ =~= old(out)@ + spec_label_list(lsd.take(i + 1)));
            }
        }
        i = i + 1;
    }
    proof {
        assert(ls.deep_view().take(ls@.len() as int) =~= ls.deep_view());
    }
}

} // verus!
