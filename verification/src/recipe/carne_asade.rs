//! Decoder for the fixed-layout waveform recording format.
//!
//! The input is a 10-byte magic prefix (8 magic bytes and 2 reserved
//! bytes), a 512-byte header with fields at fixed offsets, and a
//! payload of interleaved little-endian 16-bit samples.

use vstd::prelude::*;

use crate::metadata::{valid_date, valid_time, RecipeDate, RecipeTime};

verus! {

/// Why a decode run stopped.
#[derive(Clone, Copy, Debug, PartialEq, Eq, Structural)]
pub enum DecodeError {
    /// The magic prefix is absent: the file is not of this format and
    /// another decoder may apply.
    FormatMismatch,
    /// The input ends before the header or the declared payload does.
    Truncated,
    /// The header's calendar date fields do not name a date.
    InvalidDate,
    /// The header's time fields do not name a time of day.
    InvalidTime,
    /// The buffer budget is smaller than one sample row, so no
    /// aligned chunk can be formed.
    DegenerateConfig,
}

/// The little-endian 16-bit value at offset `i`.
pub open spec fn spec_le16_at(b: Seq<u8>, i: int) -> int {
    b[i] + 256 * b[i + 1]
}

/// The little-endian 32-bit value at offset `i`.
pub open spec fn spec_le32_at(b: Seq<u8>, i: int) -> int {
    b[i] + 256 * b[i + 1] + 65536 * b[i + 2] + 16777216 * b[i + 3]
}

/// Two's-complement sign correction of a raw 16-bit value.
pub open spec fn spec_sign16(v: int) -> int {
    if v > 32767 {
        v - 65536
    } else {
        v
    }
}

/// Reads the little-endian 16-bit value at offset `i`.
fn le16(b: &[u8], i: usize) -> (r: u16)
    requires
        i + 2 <= b@.len(),
    ensures
        r == spec_le16_at(b@, i as int),
{
    let lo = b[i];
    let hi = b[i + 1];
    lo as u16 + hi as u16 * 256
}

/// Reads the little-endian 32-bit value at offset `i`.
fn le32(b: &[u8], i: usize) -> (r: u32)
    requires
        i + 4 <= b@.len(),
    ensures
        r == spec_le32_at(b@, i as int),
{
    let b0 = b[i] as u32;
    let b1 = b[i + 1] as u32;
    let b2 = b[i + 2] as u32;
    let b3 = b[i + 3] as u32;
    b0 + b1 * 256 + b2 * 65536 + b3 * 16777216
}

/// The magic bytes `CARNE1.0` that open a file of this format.
pub open spec fn spec_magic() -> Seq<u8> {
    seq![67u8, 65u8, 82u8, 78u8, 69u8, 49u8, 46u8, 48u8]
}

/// Whether the buffer opens with the magic bytes.
pub fn has_magic(b: &[u8]) -> (r: bool)
    requires
        b@.len() >= 8,
    ensures
        r == (b@.subrange(0, 8) == spec_magic()),
{
    let ok = b[0] == 67 && b[1] == 65 && b[2] == 82 && b[3] == 78 && b[4] == 69 && b[5] == 49
        && b[6] == 46 && b[7] == 48;
    proof {
        if ok {
            assert(b@.subrange(0, 8) =~= spec_magic());
        } else {
            assert(b@.subrange(0, 8) != spec_magic()) by {
                if b@.subrange(0, 8) == spec_magic() {
                    assert(forall|k: int| 0 <= k < 8 ==> b@[k] == #[trigger] spec_magic()[k])
                        by {
                        assert(forall|k: int|
                            0 <= k < 8 ==> b@[k] == #[trigger] b@.subrange(0, 8)[k]);
                    }
                }
            }
        }
    }
    ok
}

/// The index clamped into the label table: raw values at or past the
/// table's 20 entries degrade to 0, the unknown label.
pub open spec fn spec_step_index(b: Seq<u8>, i: int) -> int {
    let raw = spec_le16_at(b, 148 + 2 * i);
    if raw < 20 {
        raw
    } else {
        0
    }
}

/// The recording header, decoded once per file from its 512 bytes.
pub struct Header {
    /// Number of time samples per channel (field name `size` on the wire).
    pub size: u32,
    pub date_of_recipe: RecipeDate,
    pub time_of_recipe: RecipeTime,
    pub number_of_steps: u16,
    /// Twelve indices into the label table, each below 20.
    pub steps: Vec<usize>,
    /// Twelve signed per-channel scale factors from 16-bit fields.
    pub unit_conversion: Vec<i32>,
    pub granularity: u16,
}

impl Header {
    pub open spec fn wf(self) -> bool {
        &&& self.date_of_recipe.wf()
        &&& self.time_of_recipe.wf()
        &&& self.steps@.len() == 12
        &&& self.unit_conversion@.len() == 12
        &&& forall|i: int| 0 <= i < 12 ==> #[trigger] self.steps@[i] < 20
        &&& forall|i: int|
            0 <= i < 12 ==> -32768 <= #[trigger] self.unit_conversion@[i] <= 32767
    }

    /// Whether `self` is exactly the header that `b` declares.
    pub open spec fn is_parse_of(self, b: Seq<u8>) -> bool {
        &&& self.size == spec_le32_at(b, 4)
        &&& self.date_of_recipe.year == spec_le16_at(b, 132)
        &&& self.date_of_recipe.month == spec_le16_at(b, 130)
        &&& self.date_of_recipe.day == spec_le16_at(b, 128)
        &&& self.time_of_recipe.hour == spec_le16_at(b, 140)
        &&& self.time_of_recipe.minute == spec_le16_at(b, 142)
        &&& self.time_of_recipe.second == spec_le16_at(b, 144)
        &&& self.number_of_steps == spec_le16_at(b, 146)
        &&& self.steps@.len() == 12
        &&& forall|i: int| 0 <= i < 12 ==> #[trigger] self.steps@[i] == spec_step_index(b, i)
        &&& self.unit_conversion@.len() == 12
        &&& forall|i: int|
            0 <= i < 12 ==> #[trigger] self.unit_conversion@[i] == spec_sign16(
                spec_le16_at(b, 196 + 2 * i),
            )
        &&& self.granularity == spec_le16_at(b, 262)
    }

    /// Decodes the calendar date at its fixed offsets; fails when the
    /// fields name no date.
    pub fn parse_date_of_recipe(buffer: &[u8]) -> (r: Result<RecipeDate, DecodeError>)
        requires
            buffer@.len() == 512,
        ensures
            ({
                let y = spec_le16_at(buffer@, 132);
                let m = spec_le16_at(buffer@, 130);
                let d = spec_le16_at(buffer@, 128);
                match r {
                    Ok(date) => valid_date(y, m, d) && date.year == y && date.month == m
                        && date.day == d,
                    Err(e) => !valid_date(y, m, d) && e == DecodeError::InvalidDate,
                }
            }),
    {
        let day = le16(buffer, 128);
        let month = le16(buffer, 130);
        let year = le16(buffer, 132);
        if month < 1 || month > 12 {
            return Err(DecodeError::InvalidDate);
        }
        let max_day: u16 = if month == 1 || month == 3 || month == 5 || month == 7 || month == 8
            || month == 10 || month == 12 {
            31
        } else if month == 4 || month == 6 || month == 9 || month == 11 {
            30
        } else {
            if (year % 4 == 0 && year % 100 != 0) || year % 400 == 0 {
                29
            } else {
                28
            }
        };
        if day < 1 || day > max_day {
            return Err(DecodeError::InvalidDate);
        }
        Ok(RecipeDate { year, month, day })
    }

    /// Decodes the time of day at its fixed offsets; fails when the
    /// fields name no time.
    pub fn parse_time_of_recipe(buffer: &[u8]) -> (r: Result<RecipeTime, DecodeError>)
        requires
            buffer@.len() == 512,
        ensures
            ({
                let h = spec_le16_at(buffer@, 140);
                let mi = spec_le16_at(buffer@, 142);
                let s = spec_le16_at(buffer@, 144);
                match r {
                    Ok(time) => valid_time(h, mi, s) && time.hour == h && time.minute == mi
                        && time.second == s,
                    Err(e) => !valid_time(h, mi, s) && e == DecodeError::InvalidTime,
                }
            }),
    {
        let hour = le16(buffer, 140);
        let minute = le16(buffer, 142);
        let second = le16(buffer, 144);
        if hour < 24 && minute < 60 && second < 60 {
            Ok(RecipeTime { hour, minute, second })
        } else {
            Err(DecodeError::InvalidTime)
        }
    }

    /// Decodes the twelve channel-label indices. An index at or past
    /// the label table's end degrades to 0 (`Unknown`); no raw value
    /// in `[0, 65535]` fails.
    pub fn parse_steps(buffer: &[u8]) -> (r: Vec<usize>)
        requires
            buffer@.len() == 512,
        ensures
            r@.len() == 12,
            forall|i: int| 0 <= i < 12 ==> #[trigger] r@[i] == spec_step_index(buffer@, i),
            forall|i: int| 0 <= i < 12 ==> #[trigger] r@[i] < 20,
    {
        let mut steps: Vec<usize> = Vec::new();
        let mut i: usize = 0;
        while i < 12
            invariant
                0 <= i <= 12,
                buffer@.len() == 512,
                steps@.len() == i,
                forall|k: int| 0 <= k < i ==> #[trigger] steps@[k] == spec_step_index(buffer@, k),
            decreases 12 - i,
        {
            let raw = le16(buffer, 148 + 2 * i);
            if raw < 20 {
                steps.push(raw as usize);
            } else {
                steps.push(0);
            }
            i = i + 1;
        }
        steps
    }

    /// Decodes the twelve per-channel scale factors from signed
    /// 16-bit two's-complement fields.
    pub fn parse_unit_conversion(buffer: &[u8]) -> (r: Vec<i32>)
        requires
            buffer@.len() == 512,
        ensures
            r@.len() == 12,
            forall|i: int|
                0 <= i < 12 ==> #[trigger] r@[i] == spec_sign16(spec_le16_at(buffer@, 196 + 2 * i)),
            forall|i: int| 0 <= i < 12 ==> -32768 <= #[trigger] r@[i] <= 32767,
    {
        let mut conversions: Vec<i32> = Vec::new();
        let mut i: usize = 0;
        while i < 12
            invariant
                0 <= i <= 12,
                buffer@.len() == 512,
                conversions@.len() == i,
                forall|k: int|
                    0 <= k < i ==> #[trigger] conversions@[k] == spec_sign16(
                        spec_le16_at(buffer@, 196 + 2 * k),
                    ),
            decreases 12 - i,
        {
            let raw = le16(buffer, 196 + 2 * i);
            let val: i32 = if raw > 32767 {
                raw as i32 - 65536
            } else {
                raw as i32
            };
            conversions.push(val);
            i = i + 1;
        }
        conversions
    }

    /// Decodes the whole header. Fails exactly when the date or the
    /// time fields are invalid; every other field is total.
    pub fn parse(buffer: &[u8]) -> (r: Result<Header, DecodeError>)
        requires
            buffer@.len() == 512,
        ensures
            ({
                let y = spec_le16_at(buffer@, 132);
                let mo = spec_le16_at(buffer@, 130);
                let d = spec_le16_at(buffer@, 128);
                let h = spec_le16_at(buffer@, 140);
                let mi = spec_le16_at(buffer@, 142);
                let s = spec_le16_at(buffer@, 144);
                match r {
                    Ok(header) => valid_date(y, mo, d) && valid_time(h, mi, s)
                        && header.is_parse_of(buffer@) && header.wf(),
                    Err(e) => {
                        &&& !(valid_date(y, mo, d) && valid_time(h, mi, s))
                        &&& (e == DecodeError::InvalidDate <==> !valid_date(y, mo, d))
                        &&& (e == DecodeError::InvalidDate || e == DecodeError::InvalidTime)
                    },
                }
            }),
    {
        let date_of_recipe = match Self::parse_date_of_recipe(buffer) {
            Ok(d) => d,
            Err(e) => {
                return Err(e);
            },
        };
        let time_of_recipe = match Self::parse_time_of_recipe(buffer) {
            Ok(t) => t,
            Err(e) => {
                return Err(e);
            },
        };
        Ok(
            Header {
                size: le32(buffer, 4),
                date_of_recipe,
                time_of_recipe,
                number_of_steps: le16(buffer, 146),
                steps: Self::parse_steps(buffer),
                unit_conversion: Self::parse_unit_conversion(buffer),
                granularity: le16(buffer, 262),
            },
        )
    }
}


/// One sample row: one time instant across all channels.
pub open spec fn spec_row(step_count: int, sample_size: int) -> int {
    step_count * sample_size
}

/// The largest byte budget at most `max_bytes` that is a whole number
/// of sample rows.
pub open spec fn spec_adjusted(max_bytes: int, row: int) -> int
    recommends
        row >= 1,
{
    (max_bytes / row) * row
}

/// How many waves the plan has: payload bytes divided by one wave's
/// worth of chunk bytes, rounded up.
pub open spec fn spec_wave_count(n: int, a: int, t: int) -> int
    recommends
        a >= 1,
        t >= 1,
{
    n / (a * t) + (if n % (a * t) == 0 {
        0int
    } else {
        1int
    })
}

/// How many ranges the final wave holds (meaningful when a wave exists).
pub open spec fn spec_last_wave_len(n: int, a: int, t: int) -> int
    recommends
        a >= 1,
        t >= 1,
        spec_wave_count(n, a, t) >= 1,
{
    let rem = n - (spec_wave_count(n, a, t) - 1) * (a * t);
    if rem % a > 0 {
        rem / a + 1
    } else if rem / a == t {
        t
    } else {
        rem / a + 1
    }
}

/// How many ranges wave `wi` holds: every wave but the last is full.
pub open spec fn spec_wave_len(wi: int, n: int, a: int, t: int) -> int {
    if wi + 1 < spec_wave_count(n, a, t) {
        t
    } else {
        spec_last_wave_len(n, a, t)
    }
}

/// How many ranges the whole plan holds.
pub open spec fn spec_plan_len(n: int, a: int, t: int) -> int {
    if n == 0 {
        0
    } else {
        (spec_wave_count(n, a, t) - 1) * t + spec_last_wave_len(n, a, t)
    }
}

/// Where the range with flat index `i` begins: a cursor of `i` full
/// chunks, clamped to the payload end.
pub open spec fn spec_onset(i: int, a: int, n: int) -> int {
    vstd::math::min(i * a, n)
}

/// Where the range with flat index `i` ends.
pub open spec fn spec_limit(i: int, a: int, n: int) -> int {
    vstd::math::min((i + 1) * a, n)
}

/// A plan (waves of ranges) is exactly the one the planner declares
/// for payload `n`, aligned chunk size `a` and parallelism `t`.
pub open spec fn plan_matches(c: Seq<Vec<(u32, u32)>>, n: int, a: int, t: int) -> bool {
    &&& c.len() == spec_wave_count(n, a, t)
    &&& forall|wi: int|
        0 <= wi < c.len() ==> (#[trigger] c[wi])@.len() == spec_wave_len(wi, n, a, t)
    &&& forall|wi: int, j: int|
        0 <= wi < c.len() && 0 <= j < c[wi]@.len() ==> (#[trigger] c[wi]@[j]).0 == spec_onset(
            wi * t + j,
            a,
            n,
        ) && c[wi]@[j].1 == spec_limit(wi * t + j, a, n)
}

/// Every wave start lies strictly inside the payload.
proof fn lemma_wave_start_lt(n: int, at: int, w: int)
    requires
        at >= 1,
        0 <= w,
        w + 1 <= n / at + (if n % at == 0 {
            0int
        } else {
            1int
        }),
        n >= 1,
    ensures
        w * at < n,
{
    vstd::arithmetic::div_mod::lemma_fundamental_div_mod(n, at);
    if n % at == 0 {
        assert(w <= n / at - 1);
        vstd::arithmetic::mul::lemma_mul_inequality(w, n / at - 1, at);
        assert((n / at - 1) * at == (n / at) * at - at) by (nonlinear_arith);
        assert((n / at) * at == n);
    } else {
        assert(w <= n / at);
        vstd::arithmetic::mul::lemma_mul_inequality(w, n / at, at);
        assert((n / at) * at == n - n % at);
    }
}

/// The payload ends by the end of the last wave.
proof fn lemma_wave_total_covers(n: int, at: int)
    requires
        at >= 1,
        n >= 0,
    ensures
        n <= (n / at + (if n % at == 0 {
            0int
        } else {
            1int
        })) * at,
{
    vstd::arithmetic::div_mod::lemma_fundamental_div_mod(n, at);
    assert((n / at) * at == at * (n / at)) by (nonlinear_arith);
    if n % at == 0 {
    } else {
        assert((n / at + 1) * at == (n / at) * at + at) by (nonlinear_arith);
    }
}

/// The planner of the chunk grid over the sample payload.
pub struct CarneAsada {}

impl CarneAsada {
    /// Computes the grid of byte ranges over a payload of
    /// `total_bytes` bytes: waves of up to `max_threads` chunks of
    /// `spec_adjusted` bytes each, the final range clamped to the
    /// payload end. The plan is empty when there is no channel data
    /// or no parallelism; a byte budget smaller than one sample row
    /// is a configuration error, since no aligned chunk could hold
    /// even one row.
    pub fn calculate_chunks(
        total_bytes: u32,
        max_bytes: u32,
        max_threads: u32,
        step_count: u32,
        sample_size: u32,
    ) -> (r: Result<Vec<Vec<(u32, u32)>>, DecodeError>)
        ensures
            ({
                let row = spec_row(step_count as int, sample_size as int);
                let n = total_bytes as int;
                let t = max_threads as int;
                if row < 1 || t < 1 {
                    r matches Ok(c) && c@.len() == 0
                } else {
                    let a = spec_adjusted(max_bytes as int, row);
                    if a == 0 {
                        r == Result::<Vec<Vec<(u32, u32)>>, DecodeError>::Err(
                            DecodeError::DegenerateConfig,
                        )
                    } else {
                        r matches Ok(c) && plan_matches(c@, n, a, t)
                    }
                }
            }),
    {
        let chunks_empty: Vec<Vec<(u32, u32)>> = Vec::new();
        proof {
            assert((step_count as int) * (sample_size as int) < 0x10000000000000000)
                by (nonlinear_arith)
                requires
                    step_count as int <= 0xffffffff && sample_size as int <= 0xffffffff
                        && step_count as int >= 0 && sample_size as int >= 0,
            ;
        }
        let row_wide: u64 = step_count as u64 * sample_size as u64;
        assert(row_wide as int == spec_row(step_count as int, sample_size as int));
        if row_wide < 1 {
            return Ok(chunks_empty);
        }
        if max_threads < 1 {
            return Ok(chunks_empty);
        }
        proof {
            let q = max_bytes as int / (row_wide as int);
            vstd::arithmetic::div_mod::lemma_fundamental_div_mod(max_bytes as int, row_wide as int);
            vstd::arithmetic::div_mod::lemma_remainder_lower(max_bytes as int, row_wide as int);
            assert(q * (row_wide as int) <= max_bytes as int) by (nonlinear_arith)
                requires
                    row_wide as int >= 1 && max_bytes as int >= 0 && max_bytes as int == (
                    row_wide as int) * q + (max_bytes as int) % (row_wide as int) && (
                    max_bytes as int) % (row_wide as int) >= 0,
            ;
        }
        let adjusted_wide: u64 = (max_bytes as u64 / row_wide) * row_wide;
        proof {
            assert(max_bytes as u64 / row_wide == max_bytes as int / (row_wide as int));
            assert(adjusted_wide as int == spec_adjusted(max_bytes as int, row_wide as int));
            assert(adjusted_wide <= max_bytes);
        }
        if adjusted_wide == 0 {
            return Err(DecodeError::DegenerateConfig);
        }
        let a: u32 = adjusted_wide as u32;
        let n: u32 = total_bytes;
        let t: u32 = max_threads;
        proof {
            assert((a as int) * (t as int) < 0x10000000000000000) by (nonlinear_arith)
                requires
                    a as int <= 0xffffffff && t as int <= 0xffffffff && a as int >= 0
                        && t as int >= 0,
            ;
        }
        let at: u64 = a as u64 * t as u64;
        let ghost n_i = n as int;
        let ghost a_i = a as int;
        let ghost t_i = t as int;
        let ghost at_i = a_i * t_i;
        proof {
            assert(at as int == at_i);
            assert(at_i >= 1) by (nonlinear_arith)
                requires
                    at_i == a_i * t_i && a_i >= 1 && t_i >= 1,
            ;
        }
        let iterations: u64 = n as u64 / at + (if n as u64 % at > 0 {
            1
        } else {
            0
        });
        let ghost w_count = spec_wave_count(n_i, a_i, t_i);
        proof {
            assert(n as u64 / at == n_i / at_i);
            assert(n as u64 % at == n_i % at_i);
            assert(iterations as int == w_count);
        }
        proof {
            if n_i == 0 {
                vstd::arithmetic::div_mod::lemma_div_of0(at_i);
                vstd::arithmetic::div_mod::lemma_small_mod(0nat, at_i as nat);
                assert(w_count == 0);
            }
            if w_count == 0 {
                vstd::arithmetic::div_mod::lemma_fundamental_div_mod(n_i, at_i);
                vstd::arithmetic::div_mod::lemma_div_pos_is_pos(n_i, at_i);
                assert(n_i / at_i == 0 && n_i % at_i == 0);
                assert(at_i * 0 == 0) by (nonlinear_arith);
                assert(n_i == 0);
            }
        }
        let mut chunks: Vec<Vec<(u32, u32)>> = Vec::new();
        let mut counter: u32 = 0;
        let mut w: u64 = 0;
        while w < iterations
            invariant
                0 <= w <= iterations,
                iterations as int == w_count,
                w_count == spec_wave_count(n_i, a_i, t_i),
                n_i == n as int,
                a_i == a as int,
                t_i == t as int,
                at_i == a_i * t_i,
                at_i >= 1,
                at as int == at_i,
                a >= 1,
                t >= 1,
                chunks@.len() == w as int,
                forall|wi: int|
                    0 <= wi < w as int ==> (#[trigger] chunks@[wi])@.len() == spec_wave_len(
                        wi,
                        n_i,
                        a_i,
                        t_i,
                    ),
                forall|wi: int, j: int|
                    0 <= wi < w as int && 0 <= j < chunks@[wi]@.len() ==> (
                    #[trigger] chunks@[wi]@[j]).0 == spec_onset(wi * t_i + j, a_i, n_i)
                        && chunks@[wi]@[j].1 == spec_limit(wi * t_i + j, a_i, n_i),
                (w as int) < w_count ==> counter as int == (w as int) * at_i && counter < n,
                (w as int) == w_count ==> counter as int == n_i,
            decreases iterations - w,
        {
            proof {
                lemma_wave_start_lt(n_i, at_i, w as int);
            }
            let ghost wstart = counter as int;
            let remaining: u32 = n - counter;
            let full_wide: u64 = remaining as u64 / a as u64;
            let full: u32 = if full_wide >= t as u64 {
                t
            } else {
                full_wide as u32
            };
            proof {
                assert(remaining as u64 / a as u64 == remaining as int / a_i);
                vstd::arithmetic::div_mod::lemma_fundamental_div_mod(remaining as int, a_i);
            }
            let mut thread_chunks: Vec<(u32, u32)> = Vec::new();
            let mut j: u32 = 0;
            while j < full
                invariant
                    0 <= j <= full,
                    full as int <= t_i,
                    full as int <= remaining as int / a_i,
                    remaining as int == n_i - wstart,
                    wstart == (w as int) * at_i,
                    at_i == a_i * t_i,
                    at_i >= 1,
                    a >= 1,
                    t >= 1,
                    n_i == n as int,
                    a_i == a as int,
                    t_i == t as int,
                    counter as int == wstart + (j as int) * a_i,
                    counter <= n,
                    thread_chunks@.len() == j as int,
                    forall|k: int|
                        0 <= k < j as int ==> (#[trigger] thread_chunks@[k]).0 == spec_onset(
                            (w as int) * t_i + k,
                            a_i,
                            n_i,
                        ) && thread_chunks@[k].1 == spec_limit((w as int) * t_i + k, a_i, n_i),
                decreases full - j,
            {
                proof {
                    assert((j as int + 1) <= remaining as int / a_i);
                    vstd::arithmetic::mul::lemma_mul_inequality(
                        j as int + 1,
                        remaining as int / a_i,
                        a_i,
                    );
                    vstd::arithmetic::div_mod::lemma_fundamental_div_mod(remaining as int, a_i);
                    assert((remaining as int / a_i) * a_i <= remaining as int);
                    assert((j as int + 1) * a_i == (j as int) * a_i + a_i) by (nonlinear_arith);
                    assert(wstart + (j as int + 1) * a_i <= n_i);
                }
                let onset = counter;
                let limit = counter + a;
                proof {
                    let i_flat = (w as int) * t_i + j as int;
                    assert(i_flat * a_i == (w as int) * at_i + (j as int) * a_i)
                        by (nonlinear_arith)
                        requires
                            i_flat == (w as int) * t_i + j as int && at_i == a_i * t_i,
                    ;
                    assert(onset as int == i_flat * a_i);
                    assert((i_flat + 1) * a_i == i_flat * a_i + a_i) by (nonlinear_arith);
                    assert(limit as int == (i_flat + 1) * a_i);
                    assert(spec_onset(i_flat, a_i, n_i) == onset as int);
                    assert(spec_limit(i_flat, a_i, n_i) == limit as int);
                }
                thread_chunks.push((onset, limit));
                counter = counter + a;
                j = j + 1;
            }
            let ghost rem_i = remaining as int;
            if full < t {
                // The wave ran out of payload: its final range is
                // clamped to the payload end (it is empty when the
                // cursor already sits there).
                proof {
                    // This can only be the final wave: any earlier wave
                    // has at least a full wave of payload left.
                    if (w as int) + 1 < w_count {
                        lemma_wave_start_lt(n_i, at_i, w as int + 1);
                        assert((w as int + 1) * at_i == (w as int) * at_i + at_i)
                            by (nonlinear_arith);
                        assert(rem_i > at_i);
                        vstd::arithmetic::div_mod::lemma_div_is_ordered(at_i, rem_i, a_i);
                        vstd::arithmetic::div_mod::lemma_div_multiples_vanish(t_i, a_i);
                        assert((a_i * t_i) / a_i == t_i);
                        assert(at_i / a_i == t_i);
                        assert(full as int == t_i);
                    }
                    assert((w as int) + 1 == w_count);
                    assert(full as int == rem_i / a_i);
                    vstd::arithmetic::div_mod::lemma_fundamental_div_mod(rem_i, a_i);
                    assert((rem_i / a_i) * a_i == rem_i - rem_i % a_i) by (nonlinear_arith)
                        requires
                            a_i >= 1 && rem_i == a_i * (rem_i / a_i) + rem_i % a_i,
                    ;
                    assert(counter as int == wstart + (rem_i / a_i) * a_i);
                    assert(n_i - counter as int == rem_i % a_i);
                }
                let onset = counter;
                proof {
                    let i_flat = (w as int) * t_i + full as int;
                    assert(i_flat * a_i == (w as int) * at_i + (full as int) * a_i)
                        by (nonlinear_arith)
                        requires
                            i_flat == (w as int) * t_i + full as int && at_i == a_i * t_i,
                    ;
                    assert(onset as int == i_flat * a_i);
                    assert(spec_onset(i_flat, a_i, n_i) == onset as int);
                    assert((i_flat + 1) * a_i == i_flat * a_i + a_i) by (nonlinear_arith);
                    assert((i_flat + 1) * a_i >= n_i);
                    assert(spec_limit(i_flat, a_i, n_i) == n_i);
                }
                thread_chunks.push((onset, n));
                counter = n;
            }
            proof {
                // The wave's length and the cursor both match the plan.
                let rem = n_i - (w_count - 1) * at_i;
                if (w as int) + 1 == w_count {
                    assert(rem == rem_i);
                    vstd::arithmetic::div_mod::lemma_fundamental_div_mod(rem_i, a_i);
                    if full < t {
                        assert(thread_chunks@.len() == full as int + 1);
                        assert(full as int == rem_i / a_i);
                        assert(spec_last_wave_len(n_i, a_i, t_i) == rem_i / a_i + 1);
                        assert(counter as int == n_i);
                    } else {
                        // A full final wave consumes exactly one wave of
                        // payload, which therefore ends on a chunk bound.
                        lemma_wave_total_covers(n_i, at_i);
                        assert(n_i <= w_count * at_i);
                        assert(w_count * at_i == (w_count - 1) * at_i + at_i) by (nonlinear_arith);
                        assert(rem_i <= at_i);
                        assert(full as int == t_i);
                        assert(t_i <= rem_i / a_i);
                        vstd::arithmetic::mul::lemma_mul_inequality(t_i, rem_i / a_i, a_i);
                        assert((rem_i / a_i) * a_i <= rem_i) by (nonlinear_arith)
                            requires
                                a_i >= 1 && rem_i >= 0,
                        ;
                        assert(t_i * a_i <= rem_i);
                        assert(t_i * a_i == at_i) by (nonlinear_arith)
                            requires
                                at_i == a_i * t_i,
                        ;
                        assert(rem_i == at_i);
                        assert((full as int) * a_i == t_i * a_i);
                        assert(counter as int == wstart + t_i * a_i);
                        assert(counter as int == n_i);
                        assert(at_i % a_i == 0) by (nonlinear_arith)
                            requires
                                at_i == a_i * t_i && a_i >= 1 && t_i >= 0,
                        ;
                        assert(rem_i % a_i == 0);
                        vstd::arithmetic::div_mod::lemma_div_multiples_vanish(t_i, a_i);
                        assert((a_i * t_i) / a_i == t_i);
                        assert(rem_i / a_i == t_i);
                        assert(spec_last_wave_len(n_i, a_i, t_i) == t_i);
                        assert(thread_chunks@.len() == t_i);
                    }
                    assert(thread_chunks@.len() == spec_wave_len(w as int, n_i, a_i, t_i));
                } else {
                    // A non-final wave is always full.
                    assert(full as int == t_i) by {
                        lemma_wave_start_lt(n_i, at_i, w as int + 1);
                        assert((w as int + 1) * at_i == (w as int) * at_i + at_i)
                            by (nonlinear_arith);
                        assert(rem_i > at_i);
                        vstd::arithmetic::div_mod::lemma_div_is_ordered(at_i, rem_i, a_i);
                        vstd::arithmetic::div_mod::lemma_div_multiples_vanish(t_i, a_i);
                        assert((a_i * t_i) / a_i == t_i);
                        assert(at_i / a_i == t_i);
                    }
                    assert(thread_chunks@.len() == t_i);
                    assert(thread_chunks@.len() == spec_wave_len(w as int, n_i, a_i, t_i));
                    assert(counter as int == wstart + t_i * a_i);
                    assert(counter as int == (w as int + 1) * at_i) by (nonlinear_arith)
                        requires
                            counter as int == wstart + t_i * a_i && wstart == (w as int) * at_i
                                && at_i == a_i * t_i,
                    ;
                    lemma_wave_start_lt(n_i, at_i, w as int + 1);
                }
            }
            chunks.push(thread_chunks);
            w = w + 1;
        }
        assert(plan_matches(chunks@, n_i, a_i, t_i));
        Ok(chunks)
    }
}


/// A nonempty payload needs at least one wave.
proof fn lemma_wave_count_pos(n: int, a: int, t: int)
    requires
        a >= 1,
        t >= 1,
        n >= 1,
    ensures
        spec_wave_count(n, a, t) >= 1,
{
    let at = a * t;
    assert(at >= 1) by (nonlinear_arith)
        requires
            a >= 1 && t >= 1 && at == a * t,
    ;
    vstd::arithmetic::div_mod::lemma_fundamental_div_mod(n, at);
    vstd::arithmetic::div_mod::lemma_div_pos_is_pos(n, at);
    if n % at == 0 {
        assert(n / at >= 1) by (nonlinear_arith)
            requires
                n == at * (n / at) && n >= 1 && at >= 1 && n / at >= 0,
        ;
    }
}

/// Bounds of the plan's flat length: the cursor of the second-to-last
/// range still lies in the payload, and the ranges reach its end.
proof fn lemma_plan_len_bounds(n: int, a: int, t: int)
    requires
        a >= 1,
        t >= 1,
        n >= 1,
    ensures
        spec_plan_len(n, a, t) >= 1,
        (spec_plan_len(n, a, t) - 1) * a <= n,
        n <= spec_plan_len(n, a, t) * a,
{
    let w = spec_wave_count(n, a, t);
    let at = a * t;
    let l = spec_plan_len(n, a, t);
    assert(at >= 1) by (nonlinear_arith)
        requires
            a >= 1 && t >= 1 && at == a * t,
    ;
    vstd::arithmetic::div_mod::lemma_fundamental_div_mod(n, at);
    vstd::arithmetic::div_mod::lemma_div_pos_is_pos(n, at);
    lemma_wave_count_pos(n, a, t);
    assert(w >= 1);
    lemma_wave_start_lt(n, at, w - 1);
    lemma_wave_total_covers(n, at);
    let rem = n - (w - 1) * at;
    assert(1 <= rem);
    assert(n <= w * at);
    assert(w * at == (w - 1) * at + at) by (nonlinear_arith);
    assert(rem <= at);
    vstd::arithmetic::div_mod::lemma_fundamental_div_mod(rem, a);
    vstd::arithmetic::div_mod::lemma_div_pos_is_pos(rem, a);
    let q = rem / a;
    assert(rem == a * q + rem % a);
    assert(q * a == a * q) by (nonlinear_arith);
    // The final wave holds q ranges of a bytes, plus a clamped range
    // unless it is exactly full.
    let lastlen = spec_last_wave_len(n, a, t);
    assert(l == (w - 1) * t + lastlen);
    assert((w - 1) * at == ((w - 1) * t) * a) by (nonlinear_arith)
        requires
            at == a * t,
    ;
    if rem % a > 0 {
        assert(lastlen == q + 1);
        assert((l - 1) * a == ((w - 1) * t) * a + q * a) by (nonlinear_arith)
            requires
                l - 1 == (w - 1) * t + q,
        ;
        assert((l - 1) * a <= n);
        assert(l * a == (l - 1) * a + a) by (nonlinear_arith);
        assert(n <= l * a);
    } else if q == t {
        assert(lastlen == t);
        assert(rem == a * t) by {
            assert(a * q == rem);
        }
        assert(l == (w - 1) * t + t);
        assert(l * a == ((w - 1) * t) * a + t * a) by (nonlinear_arith)
            requires
                l == (w - 1) * t + t,
        ;
        assert(t * a == a * t) by (nonlinear_arith);
        assert(l * a == n);
        assert((l - 1) * a == l * a - a) by (nonlinear_arith);
    } else {
        assert(lastlen == q + 1);
        assert((l - 1) * a == ((w - 1) * t) * a + q * a) by (nonlinear_arith)
            requires
                l - 1 == (w - 1) * t + q,
        ;
        assert((l - 1) * a == n);
        assert(l * a == (l - 1) * a + a) by (nonlinear_arith);
    }
}

/// For every configuration with at least one sample row per buffer
/// and one thread, the planner's ranges are contiguous from 0,
/// non-overlapping, cover exactly `[0, total_bytes)`, and every range
/// but the final one is a whole number of aligned chunks, hence of
/// sample rows. Range `j` of wave `wi` sits at flat position
/// `wi * max_threads + j`.
/// Ranges are well-formed and clamped to the payload.
proof fn lemma_plan_ranges_ordered(c: Seq<Vec<(u32, u32)>>, n: int, a: int, t: int)
    requires
        a >= 1,
        t >= 1,
        n >= 1,
        plan_matches(c, n, a, t),
    ensures
        forall|wi: int, j: int|
            0 <= wi < c.len() && 0 <= j < c[wi]@.len() ==> (#[trigger] c[wi]@[j]).0 <= c[wi]@[j].1
                <= n,
{
    assert forall|wi: int, j: int|
        0 <= wi < c.len() && 0 <= j < c[wi]@.len() implies (#[trigger] c[wi]@[j]).0 <= c[wi]@[j].1
        <= n by {
        let i = wi * t + j;
        lemma_flat_index_in_plan(n, a, t, wi, j);
        assert(i * a <= (i + 1) * a) by (nonlinear_arith)
            requires
                a >= 1 && i >= 0,
        ;
    }
}

/// Within a wave, each range starts where the previous one ended.
proof fn lemma_plan_contiguous_within(c: Seq<Vec<(u32, u32)>>, n: int, a: int, t: int)
    requires
        a >= 1,
        t >= 1,
        n >= 1,
        plan_matches(c, n, a, t),
    ensures
        forall|wi: int, j: int|
            0 <= wi < c.len() && 0 <= j && j + 1 < c[wi]@.len() ==> (#[trigger] c[wi]@[j]).1 == c[
            wi]@[j + 1].0,
{
    assert forall|wi: int, j: int|
        0 <= wi < c.len() && 0 <= j && j + 1 < c[wi]@.len() implies (#[trigger] c[wi]@[j]).1 == c[
    wi]@[j + 1].0 by {
        assert(c[wi]@[j].1 == spec_limit(wi * t + j, a, n));
        assert(c[wi]@[j + 1].0 == spec_onset(wi * t + (j + 1), a, n));
        assert(wi * t + j + 1 == wi * t + (j + 1));
    }
}

/// Across waves, the next wave's first range starts where the
/// previous wave's last range ended (a non-final wave is full).
proof fn lemma_plan_contiguous_across(c: Seq<Vec<(u32, u32)>>, n: int, a: int, t: int)
    requires
        a >= 1,
        t >= 1,
        n >= 1,
        plan_matches(c, n, a, t),
    ensures
        forall|wi: int|
            0 <= wi < c.len() - 1 ==> (#[trigger] c[wi]@)[c[wi]@.len() - 1].1 == c[wi + 1]@[0].0,
{
    assert forall|wi: int| 0 <= wi < c.len() - 1 implies (#[trigger] c[wi]@)[c[wi]@.len() - 1].1
        == c[wi + 1]@[0].0 by {
        assert(c[wi]@.len() == spec_wave_len(wi, n, a, t));
        assert(c[wi]@.len() == t);
        assert(c[wi + 1]@.len() == spec_wave_len(wi + 1, n, a, t));
        assert(c[wi + 1]@.len() >= 1) by {
            if wi + 2 < spec_wave_count(n, a, t) {
            } else {
                lemma_last_wave_nonempty(n, a, t);
            }
        }
        assert(c[wi]@[t - 1].1 == spec_limit(wi * t + (t - 1), a, n));
        assert(c[wi + 1]@[0].0 == spec_onset((wi + 1) * t + 0, a, n));
        assert(wi * t + (t - 1) + 1 == (wi + 1) * t + 0) by (nonlinear_arith);
    }
}

/// The first range opens the payload and the last one closes it.
proof fn lemma_plan_first_last(c: Seq<Vec<(u32, u32)>>, n: int, a: int, t: int)
    requires
        a >= 1,
        t >= 1,
        n >= 1,
        plan_matches(c, n, a, t),
    ensures
        c.len() >= 1,
        c[0]@.len() >= 1,
        c[0]@[0].0 == 0,
        (c[c.len() - 1]@)[c[c.len() - 1]@.len() - 1].1 == n,
{
    let w = spec_wave_count(n, a, t);
    let l = spec_plan_len(n, a, t);
    lemma_wave_count_pos(n, a, t);
    lemma_last_wave_nonempty(n, a, t);
    lemma_plan_len_bounds(n, a, t);
    assert(c[0]@.len() == spec_wave_len(0, n, a, t));
    assert(c[0]@.len() >= 1);
    assert(c[0]@[0].0 == spec_onset(0 * t + 0, a, n));
    assert(0 * t == 0) by (nonlinear_arith);
    assert(0 * a == 0) by (nonlinear_arith);
    let wi = w - 1;
    assert(c[wi]@.len() == spec_wave_len(wi, n, a, t));
    let j = c[wi]@.len() - 1;
    assert(wi * t + j == l - 1) by (nonlinear_arith)
        requires
            j == spec_last_wave_len(n, a, t) - 1 && wi == spec_wave_count(n, a, t) - 1 && l == (
            spec_wave_count(n, a, t) - 1) * t + spec_last_wave_len(n, a, t),
    ;
    assert(c[wi]@[j].1 == spec_limit(l - 1, a, n));
    assert(l * a >= n);
    assert((l - 1 + 1) * a == l * a);
}

/// Every range except the flat-last spans exactly one aligned chunk.
proof fn lemma_plan_full_chunks(c: Seq<Vec<(u32, u32)>>, n: int, a: int, t: int)
    requires
        a >= 1,
        t >= 1,
        n >= 1,
        plan_matches(c, n, a, t),
    ensures
        forall|wi: int, j: int|
            0 <= wi < c.len() && 0 <= j < c[wi]@.len() && wi * t + j != spec_plan_len(n, a, t) - 1
                ==> ((#[trigger] c[wi]@[j]).1 - c[wi]@[j].0) == a,
{
    let l = spec_plan_len(n, a, t);
    lemma_plan_len_bounds(n, a, t);
    assert forall|wi: int, j: int|
        0 <= wi < c.len() && 0 <= j < c[wi]@.len() && wi * t + j != l - 1 implies ((
    #[trigger] c[wi]@[j]).1 - c[wi]@[j].0) == a by {
        let i = wi * t + j;
        lemma_flat_index_in_plan(n, a, t, wi, j);
        assert(c[wi]@[j].0 == spec_onset(i, a, n));
        assert(c[wi]@[j].1 == spec_limit(i, a, n));
        assert(i <= l - 1);
        assert(i + 1 <= l - 1);
        assert((i + 1) * a <= (l - 1) * a) by (nonlinear_arith)
            requires
                i + 1 <= l - 1 && a >= 1,
        ;
        assert((l - 1) * a <= n);
        assert(i * a <= (i + 1) * a) by (nonlinear_arith)
            requires
                a >= 1 && i >= 0,
        ;
        assert((i + 1) * a == i * a + a) by (nonlinear_arith);
    }
}

/// For every configuration with at least one sample row per buffer
/// and one thread, the planner's ranges are contiguous from 0,
/// non-overlapping, cover exactly `[0, total_bytes)`, and every range
/// but the flat-last spans one aligned chunk, a whole number of
/// sample rows; when the payload itself is whole rows, so is every
/// range. Range `j` of wave `wi` sits at flat position
/// `wi * max_threads + j`.
pub proof fn lemma_plan_ranges_partition(
    c: Seq<Vec<(u32, u32)>>,
    n: int,
    max_bytes: int,
    t: int,
    row: int,
)
    requires
        row >= 1,
        t >= 1,
        n >= 0,
        max_bytes >= 0,
        spec_adjusted(max_bytes, row) >= 1,
        plan_matches(c, n, spec_adjusted(max_bytes, row), t),
    ensures
        ({
            let a = spec_adjusted(max_bytes, row);
            &&& a % row == 0
            &&& (n == 0 ==> c.len() == 0)
            &&& (n >= 1 ==> c.len() >= 1 && c[0]@.len() >= 1 && c[0]@[0].0 == 0)
            &&& forall|wi: int, j: int|
                0 <= wi < c.len() && 0 <= j < c[wi]@.len() ==> (#[trigger] c[wi]@[j]).0
                    <= c[wi]@[j].1 <= n
            &&& forall|wi: int, j: int|
                0 <= wi < c.len() && 0 <= j && j + 1 < c[wi]@.len() ==> (#[trigger] c[wi]@[j]).1
                    == c[wi]@[j + 1].0
            &&& forall|wi: int|
                0 <= wi < c.len() - 1 ==> (#[trigger] c[wi]@)[c[wi]@.len() - 1].1 == c[wi + 1]@[0].0
            &&& (n >= 1 ==> (c[c.len() - 1]@)[c[c.len() - 1]@.len() - 1].1 == n)
            &&& forall|wi: int, j: int|
                0 <= wi < c.len() && 0 <= j < c[wi]@.len() && wi * t + j
                    != spec_plan_len(n, a, t) - 1 ==> ((#[trigger] c[wi]@[j]).1 - c[wi]@[j].0) % row
                    == 0
            &&& (n % row == 0 ==> forall|wi: int, j: int|
                0 <= wi < c.len() && 0 <= j < c[wi]@.len() ==> ((#[trigger] c[wi]@[j]).1
                    - c[wi]@[j].0) % row == 0)
        }),
{
    let a = spec_adjusted(max_bytes, row);
    let at = a * t;
    assert(at >= 1) by (nonlinear_arith)
        requires
            a >= 1 && t >= 1 && at == a * t,
    ;
    assert(a % row == 0) by {
        let q = max_bytes / row;
        vstd::arithmetic::div_mod::lemma_div_pos_is_pos(max_bytes, row);
        assert((q * row) % row == 0) by {
            vstd::arithmetic::div_mod::lemma_mod_multiples_basic(q, row);
        }
    }
    if n == 0 {
        vstd::arithmetic::div_mod::lemma_div_of0(at);
        vstd::arithmetic::div_mod::lemma_small_mod(0nat, at as nat);
        assert(spec_wave_count(n, a, t) == 0);
        assert(c.len() == 0);
    } else {
        lemma_plan_ranges_ordered(c, n, a, t);
        lemma_plan_contiguous_within(c, n, a, t);
        lemma_plan_contiguous_across(c, n, a, t);
        lemma_plan_first_last(c, n, a, t);
        lemma_plan_full_chunks(c, n, a, t);
        let l = spec_plan_len(n, a, t);
        assert forall|wi: int, j: int|
            0 <= wi < c.len() && 0 <= j < c[wi]@.len() && wi * t + j != l - 1 implies ((
        #[trigger] c[wi]@[j]).1 - c[wi]@[j].0) % row == 0 by {
            assert(c[wi]@[j].1 - c[wi]@[j].0 == a);
        }
        if n % row == 0 {
            assert forall|wi: int, j: int|
                0 <= wi < c.len() && 0 <= j < c[wi]@.len() implies ((#[trigger] c[wi]@[j]).1 - c[
            wi]@[j].0) % row == 0 by {
                let i = wi * t + j;
                lemma_flat_index_in_plan(n, a, t, wi, j);
                assert(i * a <= (i + 1) * a) by (nonlinear_arith)
                    requires
                        a >= 1 && i >= 0,
                ;
                lemma_multiple_of_multiple(i, a, row);
                lemma_multiple_of_multiple(i + 1, a, row);
                let lo = spec_onset(i, a, n);
                let hi = spec_limit(i, a, n);
                assert(lo % row == 0 && hi % row == 0);
                lemma_mod_diff_zero(lo, hi, row);
            }
        }
    }
}

/// The final wave holds at least one range.
proof fn lemma_last_wave_nonempty(n: int, a: int, t: int)
    requires
        a >= 1,
        t >= 1,
        n >= 1,
    ensures
        spec_wave_count(n, a, t) >= 1,
        spec_last_wave_len(n, a, t) >= 1,
{
    let at = a * t;
    assert(at >= 1) by (nonlinear_arith)
        requires
            a >= 1 && t >= 1 && at == a * t,
    ;
    vstd::arithmetic::div_mod::lemma_fundamental_div_mod(n, at);
    vstd::arithmetic::div_mod::lemma_div_pos_is_pos(n, at);
    lemma_wave_count_pos(n, a, t);
    let w = spec_wave_count(n, a, t);
    assert(w >= 1);
    let rem = n - (w - 1) * at;
    lemma_wave_start_lt(n, at, w - 1);
    vstd::arithmetic::div_mod::lemma_div_pos_is_pos(rem, a);
}

/// A range's flat index lies below the plan's flat length.
proof fn lemma_flat_index_in_plan(n: int, a: int, t: int, wi: int, j: int)
    requires
        a >= 1,
        t >= 1,
        n >= 1,
        0 <= wi < spec_wave_count(n, a, t),
        0 <= j < spec_wave_len(wi, n, a, t),
    ensures
        0 <= wi * t + j < spec_plan_len(n, a, t),
        spec_wave_len(wi, n, a, t) <= t,
{
    let w = spec_wave_count(n, a, t);
    let at = a * t;
    let l = spec_plan_len(n, a, t);
    let lastlen = spec_last_wave_len(n, a, t);
    assert(at >= 1) by (nonlinear_arith)
        requires
            a >= 1 && t >= 1 && at == a * t,
    ;
    vstd::arithmetic::div_mod::lemma_fundamental_div_mod(n, at);
    vstd::arithmetic::div_mod::lemma_div_pos_is_pos(n, at);
    lemma_wave_count_pos(n, a, t);
    assert(w >= 1);
    // The last wave is no longer than a full one.
    lemma_wave_start_lt(n, at, w - 1);
    lemma_wave_total_covers(n, at);
    let rem = n - (w - 1) * at;
    assert(w * at == (w - 1) * at + at) by (nonlinear_arith);
    assert(1 <= rem <= at);
    vstd::arithmetic::div_mod::lemma_fundamental_div_mod(rem, a);
    vstd::arithmetic::div_mod::lemma_div_pos_is_pos(rem, a);
    let q = rem / a;
    assert(lastlen <= t) by {
        if rem % a > 0 {
            assert(q * a <= rem - 1) by (nonlinear_arith)
                requires
                    a >= 1 && rem == a * q + rem % a && rem % a >= 1,
            ;
            assert(q * a <= at - 1);
            assert(q < t) by (nonlinear_arith)
                requires
                    a >= 1 && t >= 1 && q >= 0 && q * a <= a * t - 1,
            ;
        } else {
            assert(a * q == rem);
            assert(q <= t) by (nonlinear_arith)
                requires
                    a >= 1 && t >= 1 && q >= 0 && a * q <= a * t,
            ;
        }
    }
    assert(wi * t >= 0) by (nonlinear_arith)
        requires
            wi >= 0 && t >= 0,
    ;
    if wi + 1 < w {
        // Full wave: its ranges end before the last wave's.
        assert(wi * t + j < (wi + 1) * t) by (nonlinear_arith)
            requires
                j < t,
        ;
        assert((wi + 1) * t <= (w - 1) * t) by (nonlinear_arith)
            requires
                wi + 1 <= w - 1 && t >= 1,
        ;
        assert(l == (w - 1) * t + lastlen);
        assert(lastlen >= 1) by {
            lemma_last_wave_nonempty(n, a, t);
        }
    } else {
        assert(wi == w - 1);
        assert(j < lastlen);
        assert(l == (w - 1) * t + lastlen);
    }
}


/// A multiple of a multiple of `row` is a multiple of `row`.
proof fn lemma_multiple_of_multiple(i: int, a: int, row: int)
    requires
        i >= 0,
        a >= 0,
        row >= 1,
        a % row == 0,
    ensures
        (i * a) % row == 0,
{
    vstd::arithmetic::div_mod::lemma_fundamental_div_mod(a, row);
    assert(i * a == (i * (a / row)) * row) by (nonlinear_arith)
        requires
            a == row * (a / row) + a % row && a % row == 0,
    ;
    vstd::arithmetic::div_mod::lemma_mod_multiples_basic(i * (a / row), row);
}

/// The difference of two multiples of `row` is a multiple of `row`.
proof fn lemma_mod_diff_zero(lo: int, hi: int, row: int)
    requires
        row >= 1,
        lo >= 0,
        hi >= 0,
        lo % row == 0,
        hi % row == 0,
    ensures
        (hi - lo) % row == 0,
{
    vstd::arithmetic::div_mod::lemma_fundamental_div_mod(lo, row);
    vstd::arithmetic::div_mod::lemma_fundamental_div_mod(hi, row);
    assert(hi - lo == (hi / row - lo / row) * row) by (nonlinear_arith)
        requires
            lo == row * (lo / row) + lo % row && hi == row * (hi / row) + hi % row && lo % row == 0
                && hi % row == 0,
    ;
    vstd::arithmetic::div_mod::lemma_mod_multiples_basic(hi / row - lo / row, row);
}


/// The decoded measurement, in micro-units, of channel `s`'s sample
/// `t` within one chunk buffer: the sign-corrected raw 16-bit value
/// times the channel's scale factor.
pub open spec fn spec_sample_micro(b: Seq<u8>, steps: int, conv: Seq<i32>, s: int, t: int) -> int {
    spec_sign16(spec_le16_at(b, 2 * (t * steps + s))) * conv[s]
}

/// The whole series of channel `s` decoded from one chunk buffer.
pub open spec fn spec_channel_series(b: Seq<u8>, steps: int, conv: Seq<i32>, s: int) -> Seq<i64> {
    Seq::new((b.len() as int / (2 * steps)) as nat, |t: int| spec_sample_micro(b, steps, conv, s, t) as i64)
}

/// The decoder of one chunk of raw interleaved samples.
pub struct CarneAsadaGaucamole {}

impl CarneAsadaGaucamole {
    /// Decodes one chunk buffer into per-channel micro-unit series.
    /// Sample `i` of the buffer belongs to channel `i % steps` at
    /// position `i / steps`; a raw value above 32767 is negative by
    /// two's complement; the measurement is the signed value times
    /// the channel's scale (the fixed `1e-6` factor is applied at
    /// rendering). The buffer must be whole sample rows.
    pub fn parse_guacamole(
        buffer: &[u8],
        number_of_steps: u16,
        unit_conversion: &Vec<i32>,
    ) -> (r: Vec<Vec<i64>>)
        requires
            number_of_steps >= 1,
            number_of_steps <= 12,
            unit_conversion@.len() == 12,
            buffer@.len() as int % (2 * number_of_steps as int) == 0,
        ensures
            r@.len() == number_of_steps as int,
            forall|s: int|
                0 <= s < number_of_steps as int ==> (#[trigger] r@[s])@ == spec_channel_series(
                    buffer@,
                    number_of_steps as int,
                    unit_conversion@,
                    s,
                ),
            forall|s: int, t: int|
                0 <= s < number_of_steps as int && 0 <= t < buffer@.len() as int / (2
                    * number_of_steps as int) ==> r@[s]@[t] == spec_sample_micro(
                    buffer@,
                    number_of_steps as int,
                    unit_conversion@,
                    s,
                    t,
                ),
    {
        let steps: usize = number_of_steps as usize;
        let ghost steps_i = steps as int;
        let ghost len_i = buffer@.len() as int;
        let total_len: usize = buffer.len();
        let samples_per: usize = total_len / (2 * steps);
        proof {
            assert(len_i <= usize::MAX);
            assert(samples_per as int == len_i / (2 * steps_i));
            vstd::arithmetic::div_mod::lemma_fundamental_div_mod(len_i, 2 * steps_i);
            assert(len_i == (2 * steps_i) * (samples_per as int));
        }
        let mut r: Vec<Vec<i64>> = Vec::new();
        let mut s: usize = 0;
        while s < steps
            invariant
                0 <= s <= steps,
                steps_i == steps as int,
                steps >= 1,
                steps <= 12,
                len_i == buffer@.len(),
                unit_conversion@.len() == 12,
                samples_per as int == len_i / (2 * steps_i),
                len_i == (2 * steps_i) * (samples_per as int),
                len_i <= usize::MAX,
                r@.len() == s as int,
                forall|k: int|
                    0 <= k < s as int ==> (#[trigger] r@[k])@ == spec_channel_series(
                        buffer@,
                        steps_i,
                        unit_conversion@,
                        k,
                    ),
            decreases steps - s,
        {
            let mut series: Vec<i64> = Vec::new();
            let mut t: usize = 0;
            while t < samples_per
                invariant
                    0 <= t <= samples_per,
                    0 <= s < steps,
                    steps_i == steps as int,
                    steps >= 1,
                    steps <= 12,
                    len_i == buffer@.len(),
                    unit_conversion@.len() == 12,
                    samples_per as int == len_i / (2 * steps_i),
                    len_i == (2 * steps_i) * (samples_per as int),
                    len_i <= usize::MAX,
                    series@.len() == t as int,
                    forall|u: int|
                        0 <= u < t as int ==> series@[u] == spec_sample_micro(
                            buffer@,
                            steps_i,
                            unit_conversion@,
                            s as int,
                            u,
                        ),
                decreases samples_per - t,
            {
                proof {
                    assert(2 * ((t as int) * (steps as int) + (s as int)) + 2 <= buffer@.len())
                        by (nonlinear_arith)
                        requires
                            (t as int) < (samples_per as int),
                            (s as int) < (steps as int),
                            (steps as int) >= 1,
                            buffer@.len() as int == (2 * (steps as int)) * (samples_per as int),
                    ;
                }
                let idx: usize = 2 * (t * steps + s);
                let raw: u16 = le16(buffer, idx);
                let signed: i32 = if raw > 32767 {
                    raw as i32 - 65536
                } else {
                    raw as i32
                };
                let scale: i32 = unit_conversion[s];
                proof {
                    assert(-32768 <= signed as int <= 32767);
                    assert(-0x4000_0000_0000 <= signed as int * scale as int <= 0x4000_0000_0000)
                        by (nonlinear_arith)
                        requires
                            -32768 <= signed as int <= 32767,
                            -0x8000_0000 <= (scale as int) <= 0x7fff_ffff,
                    ;
                }
                let value: i64 = signed as i64 * scale as i64;
                series.push(value);
                proof {
                    assert(idx as int == 2 * ((t as int) * steps_i + s as int));
                    assert(series@[t as int] == spec_sample_micro(
                        buffer@,
                        steps_i,
                        unit_conversion@,
                        s as int,
                        t as int,
                    ));
                }
                t = t + 1;
            }
            proof {
                assert(series@ =~= spec_channel_series(buffer@, steps_i, unit_conversion@, s as int));
            }
            r.push(series);
            s = s + 1;
        }
        proof {
            assert forall|si: int, ti: int|
                0 <= si < number_of_steps as int && 0 <= ti < buffer@.len() as int / (2
                    * number_of_steps as int) implies r@[si]@[ti] == spec_sample_micro(
                buffer@,
                number_of_steps as int,
                unit_conversion@,
                si,
                ti,
            ) by {
                assert(r@[si]@ == spec_channel_series(buffer@, steps_i, unit_conversion@, si));
                let v = spec_sign16(spec_le16_at(buffer@, 2 * (ti * steps_i + si)));
                let c = unit_conversion@[si] as int;
                assert(-32768 <= v <= 32767);
                assert(-0x4000_0000_0000 <= v * c <= 0x4000_0000_0000) by (nonlinear_arith)
                    requires
                        -32768 <= v <= 32767,
                        -0x8000_0000 <= c <= 0x7fff_ffff,
                ;
                assert(r@[si]@[ti] == spec_channel_series(buffer@, steps_i, unit_conversion@, si)[ti]);
            }
        }
        r
    }
}

/// The rendered measurements of one series, comma separated.
pub open spec fn spec_series_items(s: Seq<i64>) -> Seq<u8>
    decreases s.len(),
{
    if s.len() == 0 {
        seq![]
    } else if s.len() == 1 {
        crate::numfmt::spec_micro(s[0] as int)
    } else {
        spec_series_items(s.drop_last()) + seq![44u8] + crate::numfmt::spec_micro(s.last() as int)
    }
}

/// One fragment document: a bare JSON array of the series' values.
pub open spec fn spec_series_json(s: Seq<i64>) -> Seq<u8> {
    seq![91u8] + spec_series_items(s) + seq![93u8]
}

/// Every value of the series fits a 16-bit sample times a 32-bit scale.
pub open spec fn micro_bounded(s: Seq<i64>) -> bool {
    forall|i: int| 0 <= i < s.len() ==> -0x4000_0000_0000 <= #[trigger] s[i] <= 0x4000_0000_0000
}

/// Renders one channel's series as its fragment document.
pub fn series_json(values: &Vec<i64>) -> (r: Vec<u8>)
    requires
        micro_bounded(values@),
    ensures
        r@ == spec_series_json(values@),
{
    let mut out: Vec<u8> = Vec::new();
    out.push(91);
    let ghost opener = out@;
    let mut i: usize = 0;
    while i < values.len()
        invariant
            0 <= i <= values@.len(),
            micro_bounded(values@),
            opener == seq![91u8],
            out@ == opener + spec_series_items(values@.take(i as int)),
        decreases values@.len() - i,
    {
        if i > 0 {
            out.push(44);
        }
        crate::numfmt::push_micro(values[i], &mut out);
        proof {
            assert(values@.take(i + 1).drop_last() =~= values@.take(i as int));
            assert(values@.take(i + 1).last() == values@[i as int]);
            if i == 0 {
                assert(out@ =~= seq![91u8] + spec_series_items(values@.take(i + 1)));
            } else {
                assert(out@ =~= seq![91u8] + spec_series_items(values@.take(i + 1)));
            }
        }
        i = i + 1;
    }
    out.push(93);
    proof {
        assert(values@.take(values@.len() as int) =~= values@);
        assert(out@ =~= spec_series_json(values@));
    }
    out
}


/// Fragment order: by channel index, then by chunk onset.
pub open spec fn spec_frag_le(x: (usize, u32, Seq<u8>), y: (usize, u32, Seq<u8>)) -> bool {
    x.0 < y.0 || (x.0 == y.0 && x.1 <= y.1)
}

/// A fragment list sorted for the merge.
pub open spec fn frag_sorted(s: Seq<(usize, u32, Seq<u8>)>) -> bool {
    forall|i: int, j: int| 0 <= i <= j < s.len() ==> spec_frag_le(#[trigger] s[i], #[trigger] s[j])
}

/// No two fragments share a `(channel, onset)` key.
pub open spec fn frag_keys_distinct(s: Seq<(usize, u32, Seq<u8>)>) -> bool {
    forall|i: int, j: int|
        0 <= i < j < s.len() ==> !((#[trigger] s[i]).0 == (#[trigger] s[j]).0 && s[i].1 == s[j].1)
}

/// A fragment vector's abstract value: channel, onset, content bytes.
pub open spec fn frags_of(v: Vec<(usize, u32, Vec<u8>)>) -> Seq<(usize, u32, Seq<u8>)> {
    v.deep_view()
}

/// Each abstract fragment is its vector entry's fields.
pub proof fn lemma_frags_of(v: Vec<(usize, u32, Vec<u8>)>)
    ensures
        frags_of(v).len() == v@.len(),
        forall|i: int|
            0 <= i < v@.len() ==> #[trigger] frags_of(v)[i] == (v@[i].0, v@[i].1, v@[i].2@),
{
}

/// The literal `,"guacamole":[[`.
pub open spec fn lit_guac_start() -> Seq<u8> {
    seq![
        44u8, 34u8, 103u8, 117u8, 97u8, 99u8, 97u8, 109u8, 111u8, 108u8, 101u8, 34u8, 58u8, 91u8,
        91u8,
    ]
}

/// The literal `]]}`.
pub open spec fn lit_guac_end() -> Seq<u8> {
    seq![93u8, 93u8, 125u8]
}

/// A fragment's contribution: its own brackets are stripped, so only
/// the series values are spliced into the channel's array.
pub open spec fn spec_frag_inner(c: Seq<u8>) -> Seq<u8> {
    c.subrange(1, c.len() - 1)
}

/// The merged body from fragment `i` on, where `prev` is the channel
/// of the previous fragment: a channel change closes one array and
/// opens the next; otherwise fragments of one channel are joined by a
/// comma; the first fragment has no separator at all.
pub open spec fn spec_merge_body(fs: Seq<(usize, u32, Seq<u8>)>, i: int, prev: int) -> Seq<u8>
    decreases fs.len() - i,
{
    if i < 0 || i >= fs.len() {
        seq![]
    } else {
        let sep: Seq<u8> = if i == 0 {
            seq![]
        } else if fs[i].0 != prev {
            seq![93u8, 44u8, 91u8]
        } else {
            seq![44u8]
        };
        sep + spec_frag_inner(fs[i].2) + spec_merge_body(fs, i + 1, fs[i].0 as int)
    }
}

/// The final document: the metadata object reopened (its closing
/// brace dropped), one array per channel with the fragments' series
/// spliced in order, and the document closed.
pub open spec fn spec_merged(md: Seq<u8>, fs: Seq<(usize, u32, Seq<u8>)>) -> Seq<u8> {
    md.take(md.len() - 1) + lit_guac_start() + spec_merge_body(fs, 0, 0) + lit_guac_end()
}

/// The merge writer: sorts fragments and splices them into one document.
pub struct CarneAsadeFile {}

impl CarneAsadeFile {
    /// Sorts fragments by `(channel, onset)`; the result is a sorted
    /// arrangement of exactly the given fragments.
    pub fn sort_fragments(files: Vec<(usize, u32, Vec<u8>)>) -> (r: Vec<(usize, u32, Vec<u8>)>)
        ensures
            frags_of(r).to_multiset() == frags_of(files).to_multiset(),
            r@.len() == files@.len(),
            frag_sorted(frags_of(r)),
    {
        broadcast use vstd::seq_lib::group_to_multiset_ensures;

        let ghost goal = frags_of(files);
        let mut rest = files;
        let mut out: Vec<(usize, u32, Vec<u8>)> = Vec::new();
        proof {
            assert(frags_of(out).to_multiset().add(frags_of(rest).to_multiset())
                =~= goal.to_multiset());
        }
        while rest.len() > 0
            invariant
                frags_of(out).to_multiset().add(frags_of(rest).to_multiset())
                    == goal.to_multiset(),
                out@.len() + rest@.len() == goal.len(),
                goal.len() == frags_of(out).len() + frags_of(rest).len(),
                frag_sorted(frags_of(out)),
                forall|i: int, j: int|
                    0 <= i < frags_of(out).len() && 0 <= j < frags_of(rest).len()
                        ==> spec_frag_le(
                        #[trigger] frags_of(out)[i],
                        #[trigger] frags_of(rest)[j],
                    ),
            decreases rest@.len(),
        {
            let mut m: usize = 0;
            let mut k: usize = 1;
            while k < rest.len()
                invariant
                    0 <= m < k <= rest@.len(),
                    rest@.len() >= 1,
                    forall|i: int|
                        0 <= i < k ==> spec_frag_le(
                            frags_of(rest)[m as int],
                            #[trigger] frags_of(rest)[i],
                        ),
                decreases rest@.len() - k,
            {
                proof {
                    lemma_frags_of(rest);
                }
                let smaller = rest[k].0 < rest[m].0 || (rest[k].0 == rest[m].0 && rest[k].1
                    < rest[m].1);
                if smaller {
                    m = k;
                }
                k = k + 1;
            }
            let ghost old_out = frags_of(out);
            let ghost old_rest = frags_of(rest);
            proof {
                lemma_frags_of(rest);
                lemma_frags_of(out);
            }
            let f = rest.remove(m);
            out.push(f);
            proof {
                lemma_frags_of(rest);
                lemma_frags_of(out);
                old_rest.to_multiset_ensures();
                old_out.to_multiset_ensures();
                assert(frags_of(rest) =~= old_rest.remove(m as int));
                assert(frags_of(out) =~= old_out.push((f.0, f.1, f.2@)));
                assert(old_rest.remove(m as int).to_multiset() =~= old_rest.to_multiset().remove(
                    old_rest[m as int],
                ));
                assert(old_out.push((f.0, f.1, f.2@)).to_multiset() =~= old_out
                    .to_multiset()
                    .insert((f.0, f.1, f.2@)));
                assert(old_rest[m as int] == (f.0, f.1, f.2@));
                assert(frags_of(out).to_multiset().add(frags_of(rest).to_multiset())
                    =~= goal.to_multiset());
                assert(forall|j: int|
                    0 <= j < frags_of(rest).len() ==> #[trigger] frags_of(rest)[j] == old_rest[
                        if j < m as int {
                        j
                    } else {
                        j + 1
                    }]);
                assert(forall|i: int, j: int|
                    0 <= i < frags_of(out).len() && 0 <= j < frags_of(rest).len()
                        ==> spec_frag_le(
                        #[trigger] frags_of(out)[i],
                        #[trigger] frags_of(rest)[j],
                    ));
                assert(frag_sorted(frags_of(out)));
            }
        }
        out
    }

    /// Splices the metadata document and the sorted fragment
    /// contents into the final document.
    pub fn merge(metadata: &Vec<u8>, files: &Vec<(usize, u32, Vec<u8>)>) -> (r: Vec<u8>)
        requires
            metadata@.len() >= 1,
            forall|i: int| 0 <= i < files@.len() ==> (#[trigger] files@[i]).2@.len() >= 2,
        ensures
            r@ == spec_merged(metadata@, frags_of(*files)),
    {
        proof {
            lemma_frags_of(*files);
        }
        let mut out: Vec<u8> = Vec::new();
        let mut i: usize = 0;
        let md_end: usize = metadata.len() - 1;
        while i < md_end
            invariant
                0 <= i <= md_end,
                md_end == metadata@.len() - 1,
                out@ == metadata@.take(i as int),
            decreases md_end - i,
        {
            let b = metadata[i];
            out.push(b);
            proof {
                assert(metadata@.take(i + 1) =~= metadata@.take(i as int) + seq![
                    metadata@[i as int],
                ]);
            }
            i = i + 1;
        }
        out.push(44);
        out.push(34);
        out.push(103);
        out.push(117);
        out.push(97);
        out.push(99);
        out.push(97);
        out.push(109);
        out.push(111);
        out.push(108);
        out.push(101);
        out.push(34);
        out.push(58);
        out.push(91);
        out.push(91);
        let ghost head = metadata@.take(metadata@.len() - 1) + lit_guac_start();
        assert(out@ =~= head);
        let mut j: usize = 0;
        let mut prev: usize = 0;
        while j < files.len()
            invariant
                0 <= j <= files@.len(),
                forall|k: int| 0 <= k < files@.len() ==> (#[trigger] files@[k]).2@.len() >= 2,
                j > 0 ==> prev as int == files@[j as int - 1].0 as int,
                j == 0 ==> prev == 0,
                frags_of(*files).len() == files@.len(),
                forall|k: int|
                    0 <= k < files@.len() ==> #[trigger] frags_of(*files)[k] == (
                    files@[k].0,
                    files@[k].1,
                    files@[k].2@,
                ),
                spec_merge_body(frags_of(*files), 0, 0) == out@.skip(head.len() as int)
                    + spec_merge_body(frags_of(*files), j as int, prev as int),
                out@.take(head.len() as int) == head,
                out@.len() >= head.len(),
            decreases files@.len() - j,
        {
            let ghost pre = out@;
            if j > 0 {
                if files[j].0 != prev {
                    out.push(93);
                    out.push(44);
                    out.push(91);
                } else {
                    out.push(44);
                }
            }
            let mut b: usize = 1;
            let frag_len: usize = files[j].2.len();
            let ghost mid = out@;
            while b < frag_len - 1
                invariant
                    1 <= b <= frag_len - 1,
                    0 <= j < files@.len(),
                    frag_len == files@[j as int].2@.len(),
                    frag_len >= 2,
                    out@ == mid + files@[j as int].2@.subrange(1, b as int),
                decreases frag_len - b,
            {
                let byte = files[j].2[b];
                out.push(byte);
                proof {
                    assert(files@[j as int].2@.subrange(1, b + 1) =~= files@[j as int].2@.subrange(
                        1,
                        b as int,
                    ) + seq![files@[j as int].2@[b as int]]);
                }
                b = b + 1;
            }
            proof {
                assert(out@ =~= mid + spec_frag_inner(files@[j as int].2@));
                assert(out@.skip(head.len() as int) =~= pre.skip(head.len() as int) + (if j == 0 {
                    Seq::<u8>::empty()
                } else if files@[j as int].0 as int != prev as int {
                    seq![93u8, 44u8, 91u8]
                } else {
                    seq![44u8]
                }) + spec_frag_inner(files@[j as int].2@));
                assert(out@.take(head.len() as int) =~= head);
            }
            prev = files[j].0;
            j = j + 1;
        }
        out.push(93);
        out.push(93);
        out.push(125);
        proof {
            assert(out@ =~= spec_merged(metadata@, frags_of(*files)));
        }
        out
    }
}

/// Two sorted arrangements of the same fragments, no two of which
/// share a key, are one sequence.
pub proof fn lemma_sorted_fragments_unique(x: Seq<(usize, u32, Seq<u8>)>, y: Seq<(usize, u32, Seq<u8>)>)
    requires
        frag_sorted(x),
        frag_sorted(y),
        frag_keys_distinct(x),
        x.to_multiset() == y.to_multiset(),
    ensures
        x =~= y,
    decreases x.len(),
{
    broadcast use vstd::seq_lib::group_to_multiset_ensures;

    x.to_multiset_ensures();
    y.to_multiset_ensures();
    if x.len() == 0 {
        assert(y.to_multiset().len() == 0);
        assert(y.len() == 0);
    } else {
        assert(x.to_multiset().contains(x[0]));
        assert(y.to_multiset().contains(x[0]));
        assert(y.len() > 0);
        assert(y.to_multiset().contains(y[0]));
        assert(x.to_multiset().contains(y[0]));
        let jy = choose|jy: int| 0 <= jy < y.len() && #[trigger] y[jy] == x[0];
        let ix = choose|ix: int| 0 <= ix < x.len() && #[trigger] x[ix] == y[0];
        assert(spec_frag_le(y[0], y[jy]));
        assert(spec_frag_le(x[0], x[ix]));
        assert(x[0].0 == y[0].0 && x[0].1 == y[0].1);
        assert(x[0] == y[0]) by {
            if ix > 0 {
                assert(!(x[0].0 == x[ix].0 && x[0].1 == x[ix].1));
            }
        }
        let xr = x.remove(0);
        let yr = y.remove(0);
        xr.to_multiset_ensures();
        yr.to_multiset_ensures();
        assert(xr.to_multiset() =~= x.to_multiset().remove(x[0]));
        assert(yr.to_multiset() =~= y.to_multiset().remove(y[0]));
        assert(xr.to_multiset() == yr.to_multiset());
        assert(frag_sorted(xr) && frag_keys_distinct(xr) && frag_sorted(yr));
        lemma_sorted_fragments_unique(xr, yr);
        assert(x =~= y) by {
            assert(forall|i: int| 1 <= i < x.len() ==> x[i] == xr[i - 1] && y[i] == yr[i - 1]);
        }
    }
}

/// The merged document does not depend on the order in which
/// fragments were produced. Any two sorted arrangements of the
/// same fragments (no two sharing a channel and onset) are one
/// sequence, so the merge writes one document.
pub proof fn lemma_merge_order_independent(
    md: Seq<u8>,
    r1: Seq<(usize, u32, Seq<u8>)>,
    r2: Seq<(usize, u32, Seq<u8>)>,
)
    requires
        frag_sorted(r1),
        frag_sorted(r2),
        frag_keys_distinct(r1),
        r1.to_multiset() == r2.to_multiset(),
    ensures
        spec_merged(md, r1) == spec_merged(md, r2),
{
    lemma_sorted_fragments_unique(r1, r2);
    assert(r1 =~= r2);
}


/// The fixed channel-label table: entry `i` of the twenty labels,
/// and the unknown label for anything else.
pub open spec fn spec_step_name(i: int) -> Seq<u8> {
    if i < 0 || i >= 20 {
        seq![85u8, 110u8, 107u8, 110u8, 111u8, 119u8, 110u8]  // Unknown
    } else if i == 1 {
        seq![71u8, 101u8, 110u8, 101u8, 114u8, 105u8, 99u8, 32u8, 66u8, 105u8, 112u8, 111u8, 108u8, 97u8, 114u8]  // Generic Bipolar
    } else if i == 2 {
        seq![88u8]  // X
    } else if i == 3 {
        seq![89u8]  // Y
    } else if i == 4 {
        seq![90u8]  // Z
    } else if i == 5 {
        seq![73u8]  // I
    } else if i == 6 {
        seq![73u8, 73u8]  // II
    } else if i == 7 {
        seq![73u8, 73u8, 73u8]  // III
    } else if i == 8 {
        seq![86u8, 82u8]  // VR
    } else if i == 9 {
        seq![86u8, 76u8]  // VL
    } else if i == 10 {
        seq![86u8, 70u8]  // VF
    } else if i == 11 {
        seq![86u8, 49u8]  // V1
    } else if i == 12 {
        seq![86u8, 50u8]  // V2
    } else if i == 13 {
        seq![86u8, 51u8]  // V3
    } else if i == 14 {
        seq![86u8, 52u8]  // V4
    } else if i == 15 {
        seq![86u8, 53u8]  // V5
    } else if i == 16 {
        seq![86u8, 54u8]  // V6
    } else if i == 17 {
        seq![69u8, 83u8]  // ES
    } else if i == 18 {
        seq![65u8, 83u8]  // AS
    } else if i == 19 {
        seq![65u8, 73u8]  // AI
    } else {
        seq![85u8, 110u8, 107u8, 110u8, 111u8, 119u8, 110u8]  // Unknown
    }
}

/// Looks a channel label up in the fixed table.
pub fn step_name(i: usize) -> (r: Vec<u8>)
    ensures
        r@ == spec_step_name(i as int),
{
    let mut v: Vec<u8> = Vec::new();
    if i == 0 || i >= 20 {
        v.push(85);
        v.push(110);
        v.push(107);
        v.push(110);
        v.push(111);
        v.push(119);
        v.push(110);
        assert(v@ =~= spec_step_name(i as int));
    } else if i == 1 {
        v.push(71);
        v.push(101);
        v.push(110);
        v.push(101);
        v.push(114);
        v.push(105);
        v.push(99);
        v.push(32);
        v.push(66);
        v.push(105);
        v.push(112);
        v.push(111);
        v.push(108);
        v.push(97);
        v.push(114);
        assert(v@ =~= spec_step_name(i as int));
    } else if i == 2 {
        v.push(88);
        assert(v@ =~= spec_step_name(i as int));
    } else if i == 3 {
        v.push(89);
        assert(v@ =~= spec_step_name(i as int));
    } else if i == 4 {
        v.push(90);
        assert(v@ =~= spec_step_name(i as int));
    } else if i == 5 {
        v.push(73);
        assert(v@ =~= spec_step_name(i as int));
    } else if i == 6 {
        v.push(73);
        v.push(73);
        assert(v@ =~= spec_step_name(i as int));
    } else if i == 7 {
        v.push(73);
        v.push(73);
        v.push(73);
        assert(v@ =~= spec_step_name(i as int));
    } else if i == 8 {
        v.push(86);
        v.push(82);
        assert(v@ =~= spec_step_name(i as int));
    } else if i == 9 {
        v.push(86);
        v.push(76);
        assert(v@ =~= spec_step_name(i as int));
    } else if i == 10 {
        v.push(86);
        v.push(70);
        assert(v@ =~= spec_step_name(i as int));
    } else if i == 11 {
        v.push(86);
        v.push(49);
        assert(v@ =~= spec_step_name(i as int));
    } else if i == 12 {
        v.push(86);
        v.push(50);
        assert(v@ =~= spec_step_name(i as int));
    } else if i == 13 {
        v.push(86);
        v.push(51);
        assert(v@ =~= spec_step_name(i as int));
    } else if i == 14 {
        v.push(86);
        v.push(52);
        assert(v@ =~= spec_step_name(i as int));
    } else if i == 15 {
        v.push(86);
        v.push(53);
        assert(v@ =~= spec_step_name(i as int));
    } else if i == 16 {
        v.push(86);
        v.push(54);
        assert(v@ =~= spec_step_name(i as int));
    } else if i == 17 {
        v.push(69);
        v.push(83);
        assert(v@ =~= spec_step_name(i as int));
    } else if i == 18 {
        v.push(65);
        v.push(83);
        assert(v@ =~= spec_step_name(i as int));
    } else if i == 19 {
        v.push(65);
        v.push(73);
        assert(v@ =~= spec_step_name(i as int));
    } else {
        v.push(85);
        v.push(110);
        v.push(107);
        v.push(110);
        v.push(111);
        v.push(119);
        v.push(110);
        assert(v@ =~= spec_step_name(i as int));
    }
    v
}

/// The metadata label list of a header: the label of each channel
/// whose index is set (nonzero), in channel order.
pub open spec fn spec_labels(steps: Seq<usize>) -> Seq<Seq<u8>>
    decreases steps.len(),
{
    if steps.len() == 0 {
        seq![]
    } else {
        spec_labels(steps.drop_last()) + (if steps.last() > 0 {
            seq![spec_step_name(steps.last() as int)]
        } else {
            seq![]
        })
    }
}

/// Collects the labels of the used channels.
pub fn collect_labels(steps: &Vec<usize>) -> (r: Vec<Vec<u8>>)
    ensures
        r.deep_view() == spec_labels(steps@),
{
    let mut r: Vec<Vec<u8>> = Vec::new();
    let mut i: usize = 0;
    while i < steps.len()
        invariant
            0 <= i <= steps@.len(),
            r.deep_view() == spec_labels(steps@.take(i as int)),
        decreases steps@.len() - i,
    {
        let ghost pre = r.deep_view();
        if steps[i] > 0 {
            let name = step_name(steps[i]);
            proof {
                assert(name.deep_view() =~= name@);
            }
            r.push(name);
            proof {
                assert(r.deep_view() =~~= pre.push(spec_step_name(steps@[i as int] as int)));
            }
        }
        proof {
            assert(steps@.take(i + 1).drop_last() =~= steps@.take(i as int));
            assert(steps@.take(i + 1).last() == steps@[i as int]);
            assert(r.deep_view() =~~= spec_labels(steps@.take(i + 1)));
        }
        i = i + 1;
    }
    proof {
        assert(steps@.take(steps@.len() as int) =~= steps@);
    }
    r
}


/// The buffer budget of one decode chunk.
pub const MAX_BYTES: u32 = 102_400;

/// The bounded parallelism of one wave.
pub const MAX_THREADS: u32 = 8;

/// Bytes per raw sample.
pub const DTYPE: u32 = 2;

/// How many of the plan's ranges are nonempty: the payload bytes per
/// chunk, rounded up.
pub open spec fn spec_nonempty_count(n: int, a: int) -> int {
    n / a + (if n % a == 0 {
        0int
    } else {
        1int
    })
}

/// The bytes of nonempty chunk `i`.
pub open spec fn spec_chunk_slice(payload: Seq<u8>, a: int, n: int, i: int) -> Seq<u8> {
    payload.subrange(i * a, spec_limit(i, a, n))
}

/// All fragments of one decode, already in merge order: channel by
/// channel, each channel's chunks by ascending onset, each content
/// the rendered series of that channel within that chunk.
pub open spec fn spec_sorted_fragments(
    payload: Seq<u8>,
    steps: int,
    conv: Seq<i32>,
    a: int,
    n: int,
) -> Seq<(usize, u32, Seq<u8>)> {
    let m = spec_nonempty_count(n, a);
    Seq::new(
        (steps * m) as nat,
        |k: int|
            (
                (k / m) as usize,
                ((k % m) * a) as u32,
                spec_series_json(
                    spec_channel_series(spec_chunk_slice(payload, a, n, k % m), steps, conv, k / m),
                ),
            ),
    )
}

/// The channel-label indices a header buffer declares.
pub open spec fn spec_steps_of(hdr: Seq<u8>) -> Seq<usize> {
    Seq::new(12, |i: int| spec_step_index(hdr, i) as usize)
}

/// The scale factors a header buffer declares.
pub open spec fn spec_conv_of(hdr: Seq<u8>) -> Seq<i32> {
    Seq::new(12, |i: int| spec_sign16(spec_le16_at(hdr, 196 + 2 * i)) as i32)
}

/// The whole document of a successful decode of `input`.
pub open spec fn spec_parse_ok_doc(input: Seq<u8>) -> Seq<u8> {
    let hdr = input.subrange(10, 522);
    let size = spec_le32_at(hdr, 4);
    let nsteps = spec_le16_at(hdr, 146);
    let total = size * nsteps * 2;
    let payload = input.subrange(522, 522 + total);
    let a = spec_adjusted(MAX_BYTES as int, nsteps * 2);
    let date = RecipeDate {
        year: spec_le16_at(hdr, 132) as u16,
        month: spec_le16_at(hdr, 130) as u16,
        day: spec_le16_at(hdr, 128) as u16,
    };
    let time = RecipeTime {
        hour: spec_le16_at(hdr, 140) as u16,
        minute: spec_le16_at(hdr, 142) as u16,
        second: spec_le16_at(hdr, 144) as u16,
    };
    spec_merged(
        crate::metadata::spec_metadata_json_fields(
            size as nat,
            date,
            time,
            nsteps as nat,
            spec_labels(spec_steps_of(hdr)),
            1,
            spec_le16_at(hdr, 262) as nat,
        ),
        spec_sorted_fragments(payload, nsteps, spec_conv_of(hdr), a, total),
    )
}

impl CarneAsada {
    /// The decoder's registry identifier.
    pub fn identifier(&self) -> (r: String)
        ensures
            r@ =~= seq!['c', 'a', 'r', 'n', 'e', '_', 'a', 's', 'a', 'd', 'a'],
    {
        proof {
            reveal_strlit("carne_asada");
        }
        let id: &str = "carne_asada";
        id.to_owned()
    }

    /// The whole decode of one in-memory file: verify the magic,
    /// decode the header, render the metadata document, plan the
    /// chunk grid, decode every nonempty chunk channel by channel,
    /// and merge the fragments into the final document.
    ///
    /// A missing magic prefix is a format mismatch, never fatal, so a
    /// selection chain may try another decoder. A channel count
    /// outside 1..=12 is a configuration the fixed layout cannot
    /// carry. Everything shorter than it declares itself to be is
    /// truncated input.
    pub fn parse(&self, input: &[u8]) -> (r: Result<Vec<u8>, DecodeError>)
        ensures
            ({
                let len = input@.len() as int;
                let hdr = input@.subrange(10, 522);
                let size = spec_le32_at(hdr, 4);
                let nsteps = spec_le16_at(hdr, 146);
                let total = size * nsteps * 2;
                let y = spec_le16_at(hdr, 132);
                let mo = spec_le16_at(hdr, 130);
                let d = spec_le16_at(hdr, 128);
                let h = spec_le16_at(hdr, 140);
                let mi = spec_le16_at(hdr, 142);
                let sec = spec_le16_at(hdr, 144);
                if len < 10 {
                    r == Result::<Vec<u8>, DecodeError>::Err(DecodeError::Truncated)
                } else if input@.subrange(0, 8) != spec_magic() {
                    r == Result::<Vec<u8>, DecodeError>::Err(DecodeError::FormatMismatch)
                } else if len < 522 {
                    r == Result::<Vec<u8>, DecodeError>::Err(DecodeError::Truncated)
                } else if !valid_date(y, mo, d) {
                    r == Result::<Vec<u8>, DecodeError>::Err(DecodeError::InvalidDate)
                } else if !valid_time(h, mi, sec) {
                    r == Result::<Vec<u8>, DecodeError>::Err(DecodeError::InvalidTime)
                } else if nsteps < 1 || nsteps > 12 {
                    r == Result::<Vec<u8>, DecodeError>::Err(DecodeError::DegenerateConfig)
                } else if 522 + total > len || total > u32::MAX as int {
                    r == Result::<Vec<u8>, DecodeError>::Err(DecodeError::Truncated)
                } else {
                    r matches Ok(doc) && doc@ == spec_parse_ok_doc(input@)
                }
            }),
    {
        if input.len() < 10 {
            return Err(DecodeError::Truncated);
        }
        if !has_magic(input) {
            return Err(DecodeError::FormatMismatch);
        }
        if input.len() < 522 {
            return Err(DecodeError::Truncated);
        }
        let hdr_slice = vstd::slice::slice_subrange(input, 10, 522);
        let header = match Header::parse(hdr_slice) {
            Ok(h) => h,
            Err(e) => {
                return Err(e);
            },
        };
        let nsteps: u16 = header.number_of_steps;
        if nsteps < 1 || nsteps > 12 {
            return Err(DecodeError::DegenerateConfig);
        }
        proof {
            assert((header.size as int) * (nsteps as int) * 2 < 0x8000_0000_0000_0000)
                by (nonlinear_arith)
                requires
                    header.size as int <= 0xffffffff,
                    1 <= nsteps as int <= 12,
            ;
        }
        let total_wide: u64 = header.size as u64 * nsteps as u64 * 2;
        let ghost total_i = spec_le32_at(input@.subrange(10, 522), 4) * spec_le16_at(
            input@.subrange(10, 522),
            146,
        ) * 2;
        proof {
            assert(total_wide as int == total_i) by (nonlinear_arith)
                requires
                    total_wide as int == (header.size as int) * (nsteps as int) * 2,
                    total_i == (header.size as int) * (nsteps as int) * 2,
            ;
        }
        if total_wide > u32::MAX as u64 {
            return Err(DecodeError::Truncated);
        }
        if (input.len() as u64) < 522u64 + total_wide {
            return Err(DecodeError::Truncated);
        }
        let n: u32 = total_wide as u32;
        let labels = collect_labels(&header.steps);
        let metadata = crate::metadata::Metadata {
            size: header.size,
            date_of_recipe: header.date_of_recipe,
            time_of_recipe: header.time_of_recipe,
            number_of_steps: nsteps,
            steps: labels,
            units: 1,
            granularity: header.granularity,
        };
        let md = metadata.to_json();
        let ghost row = 2 * nsteps as int;
        let ghost a_i = spec_adjusted(MAX_BYTES as int, row);
        proof {
            vstd::arithmetic::div_mod::lemma_fundamental_div_mod(MAX_BYTES as int, row);
            assert(MAX_BYTES as int / row >= 1) by (nonlinear_arith)
                requires
                    2 <= row <= 24,
                    MAX_BYTES as int == row * (MAX_BYTES as int / row) + (MAX_BYTES as int) % row,
                    0 <= (MAX_BYTES as int) % row < row,
            ;
            assert(a_i >= row) by (nonlinear_arith)
                requires
                    a_i == (MAX_BYTES as int / row) * row && MAX_BYTES as int / row >= 1 && row
                        >= 2,
            ;
        }
        let chunks = match Self::calculate_chunks(n, MAX_BYTES, MAX_THREADS, nsteps as u32, DTYPE) {
            Ok(c) => c,
            Err(_) => {
                proof {
                    assert(spec_row(nsteps as int, DTYPE as int) == row) by (nonlinear_arith)
                        requires
                            row == 2 * nsteps as int,
                    ;
                    assert(false);
                }
                return Err(DecodeError::DegenerateConfig);
            },
        };
        proof {
            assert(spec_row(nsteps as int, DTYPE as int) == row) by (nonlinear_arith)
                requires
                    row == 2 * nsteps as int,
            ;
            assert(plan_matches(chunks@, n as int, a_i, MAX_THREADS as int));
        }
        let ghost n_i = n as int;
        proof {
            if n_i == 0 {
                vstd::arithmetic::div_mod::lemma_div_of0(a_i * (MAX_THREADS as int));
                vstd::arithmetic::div_mod::lemma_small_mod(
                    0nat,
                    (a_i * (MAX_THREADS as int)) as nat,
                );
                assert(a_i * (MAX_THREADS as int) >= 1) by (nonlinear_arith)
                    requires
                        a_i >= 1,
                ;
                assert(spec_wave_count(n_i, a_i, MAX_THREADS as int) == 0);
            }
        }
        let ghost payload = input@.subrange(522, 522 + n_i);
        let ghost conv = header.unit_conversion@;
        let ghost m_count = spec_nonempty_count(n_i, a_i);
        proof {
            vstd::arithmetic::div_mod::lemma_fundamental_div_mod(n_i, a_i);
            vstd::arithmetic::div_mod::lemma_div_pos_is_pos(n_i, a_i);
            assert(m_count >= 0);
            // The payload is whole sample rows, and so is each chunk.
            assert((n_i) % row == 0) by {
                assert(n_i == (header.size as int) * row) by (nonlinear_arith)
                    requires
                        n_i == (header.size as int) * (nsteps as int) * 2 && row == 2 * (
                        nsteps as int),
                ;
                vstd::arithmetic::div_mod::lemma_mod_multiples_basic(header.size as int, row);
            }
            assert(a_i % row == 0) by {
                vstd::arithmetic::div_mod::lemma_mod_multiples_basic(
                    MAX_BYTES as int / row,
                    row,
                );
            }
        }
        proof {
            if chunks@.len() == 0 {
                let at2 = a_i * (MAX_THREADS as int);
                assert(at2 >= 1) by (nonlinear_arith)
                    requires
                        a_i >= 1 && at2 == a_i * (MAX_THREADS as int) && MAX_THREADS as int == 8,
                ;
                vstd::arithmetic::div_mod::lemma_fundamental_div_mod(n_i, at2);
                vstd::arithmetic::div_mod::lemma_div_pos_is_pos(n_i, at2);
                assert(n_i / at2 == 0 && n_i % at2 == 0);
                assert(at2 * 0 == 0) by (nonlinear_arith);
                assert(n_i == 0);
            }
        }
        let mut decoded: Vec<Vec<Vec<i64>>> = Vec::new();
        let mut onsets: Vec<u32> = Vec::new();
        let mut w: usize = 0;
        let ghost g0 = 0int;
        let mut g: Ghost<int> = Ghost(g0);
        while w < chunks.len()
            invariant
                0 <= w <= chunks@.len(),
                plan_matches(chunks@, n_i, a_i, MAX_THREADS as int),
                a_i >= 1,
                input@.len() <= usize::MAX,
                n_i <= u32::MAX,
                n_i % row == 0,
                a_i % row == 0,
                row == 2 * nsteps as int,
                1 <= nsteps <= 12,
                header.unit_conversion@.len() == 12,
                conv == header.unit_conversion@,
                m_count == spec_nonempty_count(n_i, a_i),
                payload == input@.subrange(522, 522 + n_i),
                payload.len() == n_i,
                522 + n_i <= input@.len(),
                n_i >= 1 || chunks@.len() == 0,
                g@ == (if (w as int) < chunks@.len() {
                    (w as int) * (MAX_THREADS as int)
                } else {
                    spec_plan_len(n_i, a_i, MAX_THREADS as int)
                }),
                decoded@.len() == onsets@.len(),
                onsets@.len() == vstd::math::min(g@, m_count),
                forall|i: int|
                    0 <= i < onsets@.len() ==> #[trigger] onsets@[i] as int == i * a_i,
                forall|i: int|
                    0 <= i < decoded@.len() ==> (#[trigger] decoded@[i])@.len() == nsteps as int,
                forall|i: int, si: int|
                    0 <= i < decoded@.len() && 0 <= si < nsteps as int ==> (#[trigger] decoded@[i]@[
                    si])@ == spec_channel_series(
                        spec_chunk_slice(payload, a_i, n_i, i),
                        nsteps as int,
                        conv,
                        si,
                    ),
            decreases chunks@.len() - w,
        {
            proof {
                if n_i == 0 {
                    assert(chunks@.len() == 0);
                    assert(false);
                }
            }
            let wave_len: usize = chunks[w].len();
            let mut j: usize = 0;
            while j < wave_len
                invariant
                    0 <= j <= wave_len,
                    0 <= w < chunks@.len(),
                    wave_len == chunks@[w as int]@.len(),
                    plan_matches(chunks@, n_i, a_i, MAX_THREADS as int),
                    a_i >= 1,
                    n_i <= u32::MAX,
                    n_i % row == 0,
                    a_i % row == 0,
                    row == 2 * nsteps as int,
                    1 <= nsteps <= 12,
                    header.unit_conversion@.len() == 12,
                    conv == header.unit_conversion@,
                    m_count == spec_nonempty_count(n_i, a_i),
                    payload == input@.subrange(522, 522 + n_i),
                    payload.len() == n_i,
                    522 + n_i <= input@.len(),
                    input@.len() <= usize::MAX,
                    n_i >= 1,
                    g@ == (w as int) * (MAX_THREADS as int) + j as int,
                    decoded@.len() == onsets@.len(),
                    onsets@.len() == vstd::math::min(g@, m_count),
                    forall|i: int|
                        0 <= i < onsets@.len() ==> #[trigger] onsets@[i] as int == i * a_i,
                    forall|i: int|
                        0 <= i < decoded@.len() ==> (#[trigger] decoded@[i])@.len()
                            == nsteps as int,
                    forall|i: int, si: int|
                        0 <= i < decoded@.len() && 0 <= si < nsteps as int ==> (
                        #[trigger] decoded@[i]@[si])@ == spec_channel_series(
                            spec_chunk_slice(payload, a_i, n_i, i),
                            nsteps as int,
                            conv,
                            si,
                        ),
                decreases wave_len - j,
            {
                let pair: (u32, u32) = chunks[w][j];
                let onset: u32 = pair.0;
                let limit: u32 = pair.1;
                proof {
                    lemma_flat_index_in_plan(n_i, a_i, MAX_THREADS as int, w as int, j as int);
                    assert(onset as int == spec_onset(g@, a_i, n_i));
                    assert(limit as int == spec_limit(g@, a_i, n_i));
                    lemma_plan_len_bounds(n_i, a_i, MAX_THREADS as int);
                    if g@ < m_count {
                        // A range before the clamp is nonempty.
                        lemma_wave_start_lt(n_i, a_i, g@);
                        assert(g@ * a_i < n_i);
                        assert(onset as int == g@ * a_i);
                        assert((g@ + 1) * a_i > g@ * a_i) by (nonlinear_arith)
                            requires
                                a_i >= 1,
                        ;
                        assert(onset < limit);
                        assert(onsets@.len() == g@);
                    } else {
                        // Past the payload the cursor sits at its end.
                        lemma_wave_total_covers(n_i, a_i);
                        assert(m_count * a_i >= n_i);
                        assert(g@ * a_i >= m_count * a_i) by (nonlinear_arith)
                            requires
                                g@ >= m_count && a_i >= 1,
                        ;
                        assert((g@ + 1) * a_i >= g@ * a_i) by (nonlinear_arith)
                            requires
                                a_i >= 1 && g@ >= 0,
                        ;
                        assert(onset as int == n_i && limit as int == n_i);
                        assert(onsets@.len() == m_count);
                    }
                }
                if onset < limit {
                    proof {
                        assert(g@ < m_count);
                        // The chunk is whole rows: both bounds are
                        // multiples of the row size.
                        lemma_multiple_of_multiple(g@, a_i, row);
                        lemma_multiple_of_multiple(g@ + 1, a_i, row);
                        assert((g@ + 1) * a_i == g@ * a_i + a_i) by (nonlinear_arith);
                        if (g@ + 1) * a_i <= n_i {
                            lemma_mod_diff_zero(g@ * a_i, (g@ + 1) * a_i, row);
                        } else {
                            lemma_mod_diff_zero(g@ * a_i, n_i, row);
                        }
                        assert((limit as int - onset as int) % row == 0);
                    }
                    let lo: usize = 522 + onset as usize;
                    let hi: usize = 522 + limit as usize;
                    let chunk = vstd::slice::slice_subrange(input, lo, hi);
                    proof {
                        assert(chunk@ =~= spec_chunk_slice(payload, a_i, n_i, g@));
                        assert(chunk@.len() as int % (2 * nsteps as int) == 0);
                    }
                    let dec = CarneAsadaGaucamole::parse_guacamole(
                        chunk,
                        nsteps,
                        &header.unit_conversion,
                    );
                    decoded.push(dec);
                    onsets.push(onset);
                }
                g = Ghost(g@ + 1);
                j = j + 1;
            }
            proof {
                if (w as int) + 1 < chunks@.len() {
                    assert(chunks@[w as int]@.len() == MAX_THREADS as int);
                    assert(g@ == (w as int + 1) * (MAX_THREADS as int)) by (nonlinear_arith)
                        requires
                            g@ == (w as int) * (MAX_THREADS as int) + chunks@[w as int]@.len()
                                && chunks@[w as int]@.len() == MAX_THREADS as int,
                    ;
                } else {
                    assert(g@ == spec_plan_len(n_i, a_i, MAX_THREADS as int)) by (nonlinear_arith)
                        requires
                            g@ == (w as int) * (MAX_THREADS as int) + chunks@[w as int]@.len(),
                            chunks@[w as int]@.len() == spec_last_wave_len(
                                n_i,
                                a_i,
                                MAX_THREADS as int,
                            ),
                            w as int == chunks@.len() - 1,
                            chunks@.len() == spec_wave_count(n_i, a_i, MAX_THREADS as int),
                            chunks@.len() >= 1,
                            n_i >= 1,
                            spec_plan_len(n_i, a_i, MAX_THREADS as int) == (spec_wave_count(
                                n_i,
                                a_i,
                                MAX_THREADS as int,
                            ) - 1) * (MAX_THREADS as int) + spec_last_wave_len(
                                n_i,
                                a_i,
                                MAX_THREADS as int,
                            ),
                    ;
                }
            }
            w = w + 1;
        }
        proof {
            // Every nonempty chunk was decoded.
            if n_i == 0 {
                vstd::arithmetic::div_mod::lemma_div_of0(a_i);
                vstd::arithmetic::div_mod::lemma_small_mod(0nat, a_i as nat);
                assert(m_count == 0);
                assert(onsets@.len() == m_count);
            } else {
                lemma_plan_len_bounds(n_i, a_i, MAX_THREADS as int);
                let l = spec_plan_len(n_i, a_i, MAX_THREADS as int);
                assert(l * a_i >= n_i);
                assert(m_count >= 1) by {
                    vstd::arithmetic::div_mod::lemma_fundamental_div_mod(n_i, a_i);
                    vstd::arithmetic::div_mod::lemma_div_pos_is_pos(n_i, a_i);
                    if n_i % a_i == 0 {
                        assert(n_i / a_i >= 1) by (nonlinear_arith)
                            requires
                                n_i == a_i * (n_i / a_i) && n_i >= 1 && a_i >= 1 && n_i / a_i
                                    >= 0,
                        ;
                    }
                }
                assert((m_count - 1) * a_i < n_i) by {
                    lemma_wave_start_lt(n_i, a_i, m_count - 1);
                }
                assert(l >= m_count) by (nonlinear_arith)
                    requires
                        l * a_i >= n_i && (m_count - 1) * a_i < n_i && a_i >= 1,
                ;
                if chunks@.len() == 0 {
                    lemma_wave_count_pos(n_i, a_i, MAX_THREADS as int);
                }
                assert(onsets@.len() == m_count);
            }
        }
        let mut frags: Vec<(usize, u32, Vec<u8>)> = Vec::new();
        let steps_n: usize = nsteps as usize;
        let m_exec: usize = decoded.len();
        let ghost spec_frags = spec_sorted_fragments(payload, nsteps as int, conv, a_i, n_i);
        proof {
            assert((nsteps as int) * m_count >= 0) by (nonlinear_arith)
                requires
                    nsteps as int >= 1 && m_count >= 0,
            ;
            assert(spec_frags.len() == (nsteps as int) * m_count);
        }
        let mut si: usize = 0;
        while si < steps_n
            invariant
                0 <= si <= steps_n,
                steps_n == nsteps as int,
                1 <= nsteps <= 12,
                m_exec as int == m_count,
                decoded@.len() == m_count,
                onsets@.len() == m_count,
                conv == header.unit_conversion@,
                header.unit_conversion@.len() == 12,
                header.wf(),
                spec_frags == spec_sorted_fragments(payload, nsteps as int, conv, a_i, n_i),
                spec_frags.len() == (nsteps as int) * m_count,
                a_i >= 1,
                n_i >= 0,
                m_count == spec_nonempty_count(n_i, a_i),
                forall|i: int|
                    0 <= i < onsets@.len() ==> #[trigger] onsets@[i] as int == i * a_i,
                forall|i: int|
                    0 <= i < decoded@.len() ==> (#[trigger] decoded@[i])@.len() == nsteps as int,
                forall|i: int, sj: int|
                    0 <= i < decoded@.len() && 0 <= sj < nsteps as int ==> (
                    #[trigger] decoded@[i]@[sj])@ == spec_channel_series(
                        spec_chunk_slice(payload, a_i, n_i, i),
                        nsteps as int,
                        conv,
                        sj,
                    ),
                frags@.len() == (si as int) * m_count,
                frags_of(frags).len() == frags@.len(),
                forall|k: int|
                    0 <= k < frags@.len() ==> #[trigger] frags_of(frags)[k] == spec_frags[k],
            decreases steps_n - si,
        {
            let mut i: usize = 0;
            while i < m_exec
                invariant
                    0 <= i <= m_exec,
                    0 <= si < steps_n,
                    steps_n == nsteps as int,
                    1 <= nsteps <= 12,
                    m_exec as int == m_count,
                    decoded@.len() == m_count,
                    onsets@.len() == m_count,
                    conv == header.unit_conversion@,
                    header.unit_conversion@.len() == 12,
                    header.wf(),
                    spec_frags == spec_sorted_fragments(payload, nsteps as int, conv, a_i, n_i),
                    spec_frags.len() == (nsteps as int) * m_count,
                    a_i >= 1,
                    n_i >= 0,
                    m_count == spec_nonempty_count(n_i, a_i),
                    forall|q: int|
                        0 <= q < onsets@.len() ==> #[trigger] onsets@[q] as int == q * a_i,
                    forall|q: int|
                        0 <= q < decoded@.len() ==> (#[trigger] decoded@[q])@.len()
                            == nsteps as int,
                    forall|q: int, sj: int|
                        0 <= q < decoded@.len() && 0 <= sj < nsteps as int ==> (
                        #[trigger] decoded@[q]@[sj])@ == spec_channel_series(
                            spec_chunk_slice(payload, a_i, n_i, q),
                            nsteps as int,
                            conv,
                            sj,
                        ),
                    frags@.len() == (si as int) * m_count + i as int,
                    frags_of(frags).len() == frags@.len(),
                    forall|k: int|
                        0 <= k < frags@.len() ==> #[trigger] frags_of(frags)[k] == spec_frags[k],
                decreases m_exec - i,
            {
                let series: &Vec<i64> = &decoded[i][si];
                proof {
                    // Each decoded value is a bounded product of a
                    // 16-bit sample and a 16-bit scale.
                    assert forall|u: int| 0 <= u < series@.len() implies -0x4000_0000_0000 <= (
                    #[trigger] series@[u]) <= 0x4000_0000_0000 by {
                        assert(series@ == spec_channel_series(
                            spec_chunk_slice(payload, a_i, n_i, i as int),
                            nsteps as int,
                            conv,
                            si as int,
                        ));
                        let b = spec_chunk_slice(payload, a_i, n_i, i as int);
                        let v = spec_sign16(spec_le16_at(b, 2 * (u * (nsteps as int) + si)));
                        let c = conv[si as int] as int;
                        assert(-32768 <= c <= 32767);
                        assert(-32768 <= v <= 32767) by {
                            assert(0 <= b[2 * (u * (nsteps as int) + si)] <= 255);
                            assert(0 <= b[2 * (u * (nsteps as int) + si) + 1] <= 255);
                        }
                        assert(-0x4000_0000_0000 <= v * c <= 0x4000_0000_0000)
                            by (nonlinear_arith)
                            requires
                                -32768 <= v <= 32767,
                                -32768 <= c <= 32767,
                        ;
                    }
                }
                let content = series_json(series);
                let onset_i: u32 = onsets[i];
                let ghost pre = frags_of(frags);
                frags.push((si, onset_i, content));
                proof {
                    lemma_frags_of(frags);
                    let k = (si as int) * m_count + i as int;
                    assert(m_count >= 1);
                    assert(k == (si as int) * m_count + (i as int));
                    assert(0 <= k < (nsteps as int) * m_count) by (nonlinear_arith)
                        requires
                            0 <= (si as int) < (nsteps as int),
                            0 <= (i as int) < m_count,
                            k == (si as int) * m_count + (i as int),
                            m_count >= 1,
                    ;
                    assert(frags_of(frags) =~~= pre.push(
                        (si as usize, onset_i, content@),
                    ));
                    vstd::arithmetic::div_mod::lemma_fundamental_div_mod_converse(
                        k,
                        m_count,
                        si as int,
                        i as int,
                    );
                    assert(k / m_count == si as int && k % m_count == i as int);
                    assert(n_i >= 1) by {
                        if n_i == 0 {
                            vstd::arithmetic::div_mod::lemma_div_of0(a_i);
                            vstd::arithmetic::div_mod::lemma_small_mod(0nat, a_i as nat);
                            assert(m_count == 0);
                        }
                    }
                    lemma_wave_start_lt(n_i, a_i, i as int);
                    assert((i as int) * a_i < n_i);
                    assert(onset_i as int == (i as int) * a_i);
                    assert(onset_i == (((i as int) * a_i) as u32));
                    assert(spec_frags[k] == (
                        (si as int) as usize,
                        ((i as int) * a_i) as u32,
                        spec_series_json(
                            spec_channel_series(
                                spec_chunk_slice(payload, a_i, n_i, i as int),
                                nsteps as int,
                                conv,
                                si as int,
                            ),
                        ),
                    ));
                    assert(frags_of(frags)[k] == spec_frags[k]);
                }
                i = i + 1;
            }
            proof {
                assert(frags@.len() == (si as int + 1) * m_count) by (nonlinear_arith)
                    requires
                        frags@.len() == (si as int) * m_count + m_count,
                ;
            }
            si = si + 1;
        }
        proof {
            assert(frags_of(frags) =~= spec_frags);
        }
        let sorted = CarneAsadeFile::sort_fragments(frags);
        proof {
            // The fragments were produced in merge order, so sorting
            // returns the same sequence.
            lemma_spec_fragments_sorted(payload, nsteps as int, conv, a_i, n_i);
            lemma_sorted_fragments_unique(spec_frags, frags_of(sorted));
        }
        proof {
            lemma_frags_of(sorted);
            assert forall|k: int| 0 <= k < sorted@.len() implies (#[trigger] sorted@[k]).2@.len()
                >= 2 by {
                assert(frags_of(sorted)[k] == spec_frags[k]);
            }
        }
        let doc = CarneAsadeFile::merge(&md, &sorted);
        proof {
            assert(md@.len() >= 1) by {
                assert(crate::metadata::spec_metadata_json(metadata).len() >= 1);
            }
            assert(doc@ == spec_merged(md@, spec_frags));
            lemma_parse_doc_matches(input@, metadata, header, md@, doc@);
        }
        Ok(doc)
    }
}

/// The spec fragment list is in merge order with distinct keys.
proof fn lemma_spec_fragments_sorted(
    payload: Seq<u8>,
    steps: int,
    conv: Seq<i32>,
    a: int,
    n: int,
)
    requires
        a >= 1,
        1 <= steps <= 12,
        0 <= n <= u32::MAX,
    ensures
        frag_sorted(spec_sorted_fragments(payload, steps, conv, a, n)),
        frag_keys_distinct(spec_sorted_fragments(payload, steps, conv, a, n)),
{
    let fs = spec_sorted_fragments(payload, steps, conv, a, n);
    let m = spec_nonempty_count(n, a);
    vstd::arithmetic::div_mod::lemma_fundamental_div_mod(n, a);
    vstd::arithmetic::div_mod::lemma_div_pos_is_pos(n, a);
    assert(m >= 0);
    if m == 0 {
        assert((steps * m) as nat == 0) by (nonlinear_arith)
            requires
                m == 0,
        ;
        assert(fs.len() == 0);
    } else {
        assert(fs.len() == steps * m) by {
            assert(steps * m >= 0) by (nonlinear_arith)
                requires
                    steps >= 1 && m >= 0,
            ;
        }
        assert forall|k1: int, k2: int| 0 <= k1 <= k2 < fs.len() implies spec_frag_le(
            #[trigger] fs[k1],
            #[trigger] fs[k2],
        ) by {
            lemma_key_order(k1, k2, m, a, n);
            lemma_key_bounds(k1, m, a, n, steps);
            lemma_key_bounds(k2, m, a, n, steps);
        }
        assert forall|k1: int, k2: int| 0 <= k1 < k2 < fs.len() implies !((#[trigger] fs[k1]).0
            == (#[trigger] fs[k2]).0 && fs[k1].1 == fs[k2].1) by {
            lemma_key_order(k1, k2, m, a, n);
            lemma_key_bounds(k1, m, a, n, steps);
            lemma_key_bounds(k2, m, a, n, steps);
        }
    }
}

/// A fragment's key fits its machine types: the channel index is
/// below the channel count and the onset lies in the payload.
proof fn lemma_key_bounds(k: int, m: int, a: int, n: int, steps: int)
    requires
        m >= 1,
        a >= 1,
        1 <= steps <= 12,
        0 <= n <= u32::MAX,
        m == spec_nonempty_count(n, a),
        0 <= k < steps * m,
    ensures
        0 <= k / m < steps,
        0 <= k % m < m,
        0 <= (k % m) * a < n,
        (k % m) * a <= u32::MAX,
{
    vstd::arithmetic::div_mod::lemma_fundamental_div_mod(k, m);
    vstd::arithmetic::div_mod::lemma_div_pos_is_pos(k, m);
    if n == 0 {
        vstd::arithmetic::div_mod::lemma_div_of0(a);
        vstd::arithmetic::div_mod::lemma_small_mod(0nat, a as nat);
        assert(m == 0);
    }
    assert(k / m < steps) by (nonlinear_arith)
        requires
            m >= 1 && k >= 0 && k < steps * m && k == m * (k / m) + k % m && 0 <= k % m < m,
    ;
    lemma_wave_start_lt(n, a, k % m);
}

/// Fragment keys grow with the flat index: a later fragment has a
/// later channel, or the same channel and a strictly later onset.
proof fn lemma_key_order(k1: int, k2: int, m: int, a: int, n: int)
    requires
        m >= 1,
        a >= 1,
        0 <= k1 <= k2,
        n >= 0,
        m == spec_nonempty_count(n, a),
    ensures
        k1 / m <= k2 / m,
        k1 / m == k2 / m && k1 < k2 ==> k1 % m < k2 % m,
        (k1 % m) * a <= (k2 % m) * a || k1 / m < k2 / m,
        k1 < k2 ==> !(k1 / m == k2 / m && (k1 % m) * a == (k2 % m) * a),
        0 <= k1 % m < m,
        0 <= k1 / m,
        (k1 % m) * a <= u32::MAX || (k1 % m) * a > u32::MAX,
{
    vstd::arithmetic::div_mod::lemma_div_is_ordered(k1, k2, m);
    vstd::arithmetic::div_mod::lemma_fundamental_div_mod(k1, m);
    vstd::arithmetic::div_mod::lemma_fundamental_div_mod(k2, m);
    vstd::arithmetic::div_mod::lemma_div_pos_is_pos(k1, m);
    vstd::arithmetic::div_mod::lemma_div_pos_is_pos(k2, m);
    if k1 / m == k2 / m && k1 < k2 {
        assert(k1 % m < k2 % m);
    }
    if k1 / m == k2 / m && k1 % m < k2 % m {
        assert((k1 % m) * a < (k2 % m) * a) by (nonlinear_arith)
            requires
                k1 % m < k2 % m && a >= 1,
        ;
    }
    if k1 / m == k2 / m && k1 % m == k2 % m {
        assert(k1 == k2);
    }
    assert((k1 % m) * a >= 0) by (nonlinear_arith)
        requires
            k1 % m >= 0 && a >= 1,
    ;
    if k1 / m == k2 / m && (k1 % m) * a == (k2 % m) * a && k1 < k2 {
        assert(k1 % m < k2 % m);
        assert((k1 % m) * a < (k2 % m) * a) by (nonlinear_arith)
            requires
                k1 % m < k2 % m && a >= 1,
        ;
    }
}

/// The document built by the pipeline is the one the input declares.
proof fn lemma_parse_doc_matches(
    input: Seq<u8>,
    metadata: crate::metadata::Metadata,
    header: Header,
    md: Seq<u8>,
    doc: Seq<u8>,
)
    requires
        input.len() >= 522,
        header.is_parse_of(input.subrange(10, 522)),
        header.wf(),
        metadata.size == header.size,
        metadata.date_of_recipe == header.date_of_recipe,
        metadata.time_of_recipe == header.time_of_recipe,
        metadata.number_of_steps == header.number_of_steps,
        metadata.steps.deep_view() == spec_labels(header.steps@),
        metadata.units == 1,
        metadata.granularity == header.granularity,
        md == crate::metadata::spec_metadata_json(metadata),
        1 <= header.number_of_steps <= 12,
        doc == spec_merged(
            md,
            spec_sorted_fragments(
                input.subrange(
                    522,
                    522 + spec_le32_at(input.subrange(10, 522), 4) * spec_le16_at(
                        input.subrange(10, 522),
                        146,
                    ) * 2,
                ),
                header.number_of_steps as int,
                header.unit_conversion@,
                spec_adjusted(MAX_BYTES as int, header.number_of_steps as int * 2),
                spec_le32_at(input.subrange(10, 522), 4) * spec_le16_at(
                    input.subrange(10, 522),
                    146,
                ) * 2,
            ),
        ),
    ensures
        doc == spec_parse_ok_doc(input),
{
    let hdr = input.subrange(10, 522);
    assert(header.steps@ =~= spec_steps_of(hdr));
    assert(header.unit_conversion@ =~= spec_conv_of(hdr));
    assert(header.date_of_recipe == RecipeDate {
        year: spec_le16_at(hdr, 132) as u16,
        month: spec_le16_at(hdr, 130) as u16,
        day: spec_le16_at(hdr, 128) as u16,
    });
    assert(header.time_of_recipe == RecipeTime {
        hour: spec_le16_at(hdr, 140) as u16,
        minute: spec_le16_at(hdr, 142) as u16,
        second: spec_le16_at(hdr, 144) as u16,
    });
    assert(2 * (header.number_of_steps as int) == (header.number_of_steps as int) * 2);
}


/// The series of channel `s` reassembled from the first `count`
/// chunks, in chunk order.
pub open spec fn spec_concat_chunk_series(
    payload: Seq<u8>,
    steps: int,
    conv: Seq<i32>,
    a: int,
    n: int,
    s: int,
    count: int,
) -> Seq<i64>
    decreases count,
{
    if count <= 0 {
        seq![]
    } else {
        spec_concat_chunk_series(payload, steps, conv, a, n, s, count - 1) + spec_channel_series(
            spec_chunk_slice(payload, a, n, count - 1),
            steps,
            conv,
            s,
        )
    }
}

/// Appending one row-aligned chunk to a row-aligned prefix extends
/// the prefix's series by the chunk's series.
proof fn lemma_series_prefix_step(
    payload: Seq<u8>,
    steps: int,
    conv: Seq<i32>,
    s: int,
    k0: int,
    k1: int,
)
    requires
        steps >= 1,
        0 <= s < steps,
        0 <= k0 <= k1 <= payload.len(),
        k0 % (2 * steps) == 0,
        k1 % (2 * steps) == 0,
    ensures
        spec_channel_series(payload.take(k1), steps, conv, s) == spec_channel_series(
            payload.take(k0),
            steps,
            conv,
            s,
        ) + spec_channel_series(payload.subrange(k0, k1), steps, conv, s),
{
    let row = 2 * steps;
    vstd::arithmetic::div_mod::lemma_fundamental_div_mod(k0, row);
    vstd::arithmetic::div_mod::lemma_fundamental_div_mod(k1, row);
    vstd::arithmetic::div_mod::lemma_div_pos_is_pos(k0, row);
    vstd::arithmetic::div_mod::lemma_div_pos_is_pos(k1, row);
    vstd::arithmetic::div_mod::lemma_div_is_ordered(k0, k1, row);
    let q0 = k0 / row;
    let q1 = k1 / row;
    assert(k0 == row * q0 && k1 == row * q1);
    let left = spec_channel_series(payload.take(k1), steps, conv, s);
    let first = spec_channel_series(payload.take(k0), steps, conv, s);
    let second = spec_channel_series(payload.subrange(k0, k1), steps, conv, s);
    assert((k1 - k0) / row == q1 - q0) by {
        assert(k1 - k0 == (q1 - q0) * row + 0) by (nonlinear_arith)
            requires
                k0 == row * q0 && k1 == row * q1,
        ;
        vstd::arithmetic::div_mod::lemma_fundamental_div_mod_converse(k1 - k0, row, q1 - q0, 0);
    }
    assert(left.len() == q1 && first.len() == q0 && second.len() == q1 - q0);
    assert forall|t: int| 0 <= t < q1 implies left[t] == (first + second)[t] by {
        if t < q0 {
            assert(2 * (t * steps + s) + 1 < k0) by (nonlinear_arith)
                requires
                    0 <= t < q0 && 0 <= s < steps && k0 == (2 * steps) * q0,
            ;
            assert(payload.take(k1)[2 * (t * steps + s)] == payload.take(k0)[2 * (t * steps + s)]);
            assert(payload.take(k1)[2 * (t * steps + s) + 1] == payload.take(k0)[2 * (t * steps
                + s) + 1]);
        } else {
            let u = t - q0;
            assert((first + second)[t] == second[u]);
            assert(2 * (u * steps + s) + 1 < k1 - k0 && 2 * (t * steps + s) == k0 + 2 * (u * steps
                + s) && 2 * (t * steps + s) + 1 < k1) by (nonlinear_arith)
                requires
                    q0 <= t < q1 && u == t - q0 && 0 <= s < steps && k0 == (2 * steps) * q0 && k1
                        == (2 * steps) * q1 && steps >= 1,
            ;
            assert(payload.subrange(k0, k1)[2 * (u * steps + s)] == payload[k0 + 2 * (u * steps
                + s)]);
            assert(payload.take(k1)[2 * (t * steps + s)] == payload[2 * (t * steps + s)]);
        }
    }
    assert(left =~= first + second);
}

/// Decoding the payload chunk by chunk and reassembling the pieces
/// in chunk order gives, for every channel, exactly the series
/// of decoding the whole payload at once. The plan's chunk count and
/// parallelism cannot change the decoded document.
pub proof fn lemma_chunked_decode_is_whole_decode(
    payload: Seq<u8>,
    steps: int,
    conv: Seq<i32>,
    a: int,
    s: int,
)
    requires
        steps >= 1,
        0 <= s < steps,
        a >= 1,
        a % (2 * steps) == 0,
        payload.len() as int % (2 * steps) == 0,
    ensures
        spec_concat_chunk_series(
            payload,
            steps,
            conv,
            a,
            payload.len() as int,
            s,
            spec_nonempty_count(payload.len() as int, a),
        ) == spec_channel_series(payload, steps, conv, s),
{
    let n = payload.len() as int;
    let m = spec_nonempty_count(n, a);
    vstd::arithmetic::div_mod::lemma_fundamental_div_mod(n, a);
    vstd::arithmetic::div_mod::lemma_div_pos_is_pos(n, a);
    lemma_chunked_prefix(payload, steps, conv, a, s, m);
    lemma_wave_total_covers(n, a);
    assert(spec_onset(m, a, n) == n);
    assert(payload.take(n) =~= payload);
}

/// The first `c` chunks reassemble to the series of the payload's
/// first `c` chunk-widths of bytes.
proof fn lemma_chunked_prefix(payload: Seq<u8>, steps: int, conv: Seq<i32>, a: int, s: int, c: int)
    requires
        steps >= 1,
        0 <= s < steps,
        a >= 1,
        a % (2 * steps) == 0,
        payload.len() as int % (2 * steps) == 0,
        0 <= c <= spec_nonempty_count(payload.len() as int, a),
    ensures
        spec_concat_chunk_series(payload, steps, conv, a, payload.len() as int, s, c)
            == spec_channel_series(
            payload.take(spec_onset(c, a, payload.len() as int)),
            steps,
            conv,
            s,
        ),
    decreases c,
{
    let n = payload.len() as int;
    let m = spec_nonempty_count(n, a);
    let row = 2 * steps;
    if c == 0 {
        assert(0 * a == 0) by (nonlinear_arith);
        assert(payload.take(0) =~= Seq::<u8>::empty());
        assert(spec_channel_series(payload.take(0), steps, conv, s) =~= Seq::<i64>::empty());
    } else {
        lemma_chunked_prefix(payload, steps, conv, a, s, c - 1);
        let k0 = spec_onset(c - 1, a, n);
        let k1 = spec_onset(c, a, n);
        vstd::arithmetic::div_mod::lemma_fundamental_div_mod(n, a);
        vstd::arithmetic::div_mod::lemma_div_pos_is_pos(n, a);
        lemma_wave_start_lt(n, a, c - 1);
        assert((c - 1) * a < n);
        assert(k0 == (c - 1) * a);
        assert(c * a == (c - 1) * a + a) by (nonlinear_arith);
        assert(k0 <= k1 <= n);
        assert(k1 == spec_limit(c - 1, a, n));
        lemma_multiple_of_multiple(c - 1, a, row);
        lemma_multiple_of_multiple(c, a, row);
        assert(k0 % row == 0);
        assert(k1 % row == 0) by {
            if c * a <= n {
            } else {
                assert(k1 == n);
            }
        }
        lemma_series_prefix_step(payload, steps, conv, s, k0, k1);
        assert(spec_chunk_slice(payload, a, n, c - 1) == payload.subrange(k0, k1));
    }
}

} // verus!
