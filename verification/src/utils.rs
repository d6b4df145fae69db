//! Small helpers shared by the other modules.

use std::time::{SystemTime, UNIX_EPOCH};

use vstd::prelude::*;

verus! {

/// `std::time::SystemTime::now`, as whole seconds and nanoseconds since the Unix
/// epoch, or `None` if the system clock stands before the epoch. What the clock
/// reads is up to the machine; the nanoseconds are always less than a second.
#[verifier::external_body]
fn system_time() -> (reading: Option<(u64, u32)>)
    ensures
        reading matches Some(time) ==> time.1 < 1_000_000_000,
{
    match SystemTime::now().duration_since(UNIX_EPOCH) {
        Ok(since) => Some((since.as_secs(), since.subsec_nanos())),
        Err(_) => None,
    }
}

/// The Unix time in milliseconds of a clock reading: `0` before the epoch, and
/// reduced to 64 bits.
pub open spec fn unix_ms_spec(reading: Option<(u64, u32)>) -> int {
    match reading {
        Some((secs, nanos)) => (secs * 1000 + nanos as int / 1_000_000) % 0x1_0000_0000_0000_0000,
        None => 0,
    }
}

/// The Unix time in milliseconds of a clock reading of whole seconds and
/// nanoseconds; `0` for a clock before the epoch.
pub fn unix_ms_of(reading: Option<(u64, u32)>) -> (millis: u64)
    ensures
        millis == unix_ms_spec(reading),
{
    match reading {
        Some((secs, nanos)) => {
            let total: u128 = (secs as u128) * 1000 + (nanos as u128) / 1_000_000;
            let wrapped: u128 = total % 0x1_0000_0000_0000_0000;
            wrapped as u64
        },
        None => 0,
    }
}

/// The current Unix time in milliseconds; `0` if the system clock stands before
/// the epoch.
pub fn now_unix_ms() -> (millis: u64)
    ensures
        exists|reading: Option<(u64, u32)>| millis == #[trigger] unix_ms_spec(reading),
{
    let reading = system_time();
    unix_ms_of(reading)
}

/// The Unix time in seconds of a clock reading: `0` before the epoch.
pub open spec fn unix_secs_spec(reading: Option<(u64, u32)>) -> u64 {
    match reading {
        Some((secs, _)) => secs,
        None => 0,
    }
}

/// The Unix time in seconds of a clock reading of whole seconds and nanoseconds;
/// `0` for a clock before the epoch.
pub fn unix_secs_of(reading: Option<(u64, u32)>) -> (seconds: u64)
    ensures
        seconds == unix_secs_spec(reading),
{
    match reading {
        Some((secs, _)) => secs,
        None => 0,
    }
}

/// The current Unix time in seconds: what `unix_secs_of` makes of a reading of the
/// system clock. What the clock reads is up to the machine: any number can come.
pub fn now_unix_secs() -> (seconds: u64)
    ensures
        exists|reading: Option<(u64, u32)>| seconds == #[trigger] unix_secs_spec(reading),
{
    let reading = system_time();
    unix_secs_of(reading)
}

/// The sum of the values of a sequence.
pub open spec fn sum_u64(values: Seq<u64>) -> nat
    decreases values.len(),
{
    if values.len() == 0 {
        0
    } else {
        sum_u64(values.drop_last()) + values.last() as nat
    }
}

/// How many of the lowest `n` bits of `mask` are set.
pub open spec fn bits_set(mask: u16, n: nat) -> nat
    decreases n,
{
    if n == 0 {
        0
    } else {
        bits_set(mask, (n - 1) as nat) + if bit(mask, n - 1) { 1nat } else { 0nat }
    }
}

/// Whether bit `i` of `mask` is set.
pub open spec fn bit(mask: u16, i: int) -> bool {
    (mask >> (i as u16)) & 1u16 == 1u16
}

/// A prefix sums to no more than the whole.
pub proof fn lemma_sum_prefix(values: Seq<u64>, n: int)
    requires
        0 <= n <= values.len(),
    ensures
        sum_u64(values.take(n)) <= sum_u64(values),
    decreases values.len(),
{
    if n < values.len() {
        lemma_sum_prefix(values.drop_last(), n);
        assert(values.drop_last().take(n) =~= values.take(n));
    } else {
        assert(values.take(n) =~= values);
    }
}

/// Clamp a skill rating to the range `[0, max]`.
pub fn clamp_rating(rating: u32, max: u32) -> (clamped: u32)
    ensures
        clamped == if rating <= max { rating } else { max },
        clamped <= rating,
        clamped <= max,
        clamped == rating || clamped == max,
{
    if rating <= max {
        rating
    } else {
        max
    }
}

/// The average of a slice, rounded down; `0` for an empty slice.
///
/// The sum of the values has to fit in a `u64`.
pub fn average_u64(values: &[u64]) -> (average: u64)
    requires
        sum_u64(values@) <= u64::MAX,
    ensures
        values@.len() == 0 ==> average == 0,
        values@.len() > 0 ==> average == sum_u64(values@) / values@.len(),
        values@.len() > 0 ==> average * values@.len() <= sum_u64(values@) < (average + 1)
            * values@.len(),
{
    if values.len() == 0 {
        return 0;
    }
    let total: u64 = total_u64(values);
    proof {
        let count: int = values@.len() as int;
        vstd::arithmetic::div_mod::lemma_fundamental_div_mod(total as int, count);
        assert(count * (total as int / count) == (total as int / count) * count)
            by (nonlinear_arith);
        assert((total as int / count + 1) * count == (total as int / count) * count + count)
            by (nonlinear_arith);
    }
    total / (values.len() as u64)
}

/// The sum of a slice whose sum fits in a `u64`.
pub fn total_u64(values: &[u64]) -> (total: u64)
    requires
        sum_u64(values@) <= u64::MAX,
    ensures
        total == sum_u64(values@),
{
    let mut total: u64 = 0;
    let mut i: usize = 0;
    while i < values.len()
        invariant
            i <= values@.len(),
            sum_u64(values@) <= u64::MAX,
            total == sum_u64(values@.take(i as int)),
        decreases values@.len() - i,
    {
        proof {
            assert(values@.take(i + 1).drop_last() =~= values@.take(i as int));
            lemma_sum_prefix(values@, i + 1);
        }
        total = total + values[i];
        i = i + 1;
    }
    assert(values@.take(i as int) =~= values@);
    total
}

/// The number of set bits of `mask`.
pub fn popcount_u16(mask: u16) -> (count: u32)
    ensures
        count == bits_set(mask, 16),
        count <= 16,
{
    let mut count: u32 = 0;
    let mut i: u16 = 0;
    while i < 16
        invariant
            i <= 16,
            count == bits_set(mask, i as nat),
            count <= i,
        decreases 16 - i,
    {
        if (mask >> i) & 1u16 == 1u16 {
            count = count + 1;
        }
        i = i + 1;
    }
    count
}

/// The sum of two lists one after the other is the sum of their sums, nothing sums
/// to zero, and one value to itself.
pub proof fn law_sums_add_up(a: Seq<u64>, b: Seq<u64>, value: u64)
    ensures
        sum_u64(Seq::<u64>::empty()) == 0,
        sum_u64(seq![value]) == value,
        sum_u64(a + b) == sum_u64(a) + sum_u64(b),
    decreases b.len(),
{
    assert(seq![value].drop_last() =~= Seq::<u64>::empty());
    assert(sum_u64(seq![value]) == sum_u64(seq![value].drop_last()) + value);
    if b.len() == 0 {
        assert(a + b =~= a);
    } else {
        law_sums_add_up(a, b.drop_last(), value);
        assert((a + b).drop_last() =~= a + b.drop_last());
    }
}

proof fn lemma_bits_of_half(mask: u16, n: nat)
    requires
        n < 16,
    ensures
        bits_set(mask, (n + 1) as nat) == bits_set((mask / 2) as u16, n) + mask % 2,
    decreases n,
{
    let half: u16 = (mask / 2) as u16;
    if n == 0 {
        assert((mask >> 0u16) & 1u16 == 1u16 <==> mask % 2 == 1) by (bit_vector);
        assert(bits_set(mask, 1) == bits_set(mask, 0) + if bit(mask, 0) { 1nat } else { 0nat });
    } else {
        lemma_bits_of_half(mask, (n - 1) as nat);
        let k: u16 = n as u16;
        assert((mask >> k) & 1u16 == (half >> ((k - 1) as u16)) & 1u16) by (bit_vector)
            requires
                1 <= k < 16,
                half == mask / 2,
        ;
    }
}

/// The number of set bits is that of half the mask, and one more for an odd mask;
/// zero has none.
pub proof fn law_bits_are_counted_one_by_one(mask: u16)
    ensures
        bits_set(mask, 16) == bits_set((mask / 2) as u16, 16) + mask % 2,
        bits_set(0, 16) == 0,
{
    let half: u16 = (mask / 2) as u16;
    lemma_bits_of_half(mask, 15);
    assert((half >> 15u16) & 1u16 == 0u16) by (bit_vector)
        requires
            half == mask / 2,
    ;
    assert(bits_set(half, 16) == bits_set(half, 15) + if bit(half, 15) { 1nat } else { 0nat });
    lemma_no_bits(16);
}

proof fn lemma_no_bits(n: nat)
    requires
        n <= 16,
    ensures
        bits_set(0, n) == 0,
    decreases n,
{
    if n > 0 {
        lemma_no_bits((n - 1) as nat);
        let k: u16 = (n - 1) as u16;
        assert((0u16 >> k) & 1u16 == 0u16) by (bit_vector)
            requires
                k < 16,
        ;
    }
}

/// The Unix time in milliseconds is the reading rounded down, as long as it fits
/// 64 bits, and the Unix time in seconds is the reading's seconds.
pub proof fn law_unix_time_is_the_reading_rounded_down(secs: u64, nanos: u32)
    requires
        nanos < 1_000_000_000,
        secs * 1000 + 999 < 0x1_0000_0000_0000_0000,
    ensures
        unix_ms_spec(Some((secs, nanos))) * 1_000_000 <= secs * 1_000_000_000 + nanos < (
        unix_ms_spec(Some((secs, nanos))) + 1) * 1_000_000,
        unix_secs_spec(Some((secs, nanos))) == secs,
        unix_ms_spec(None) == 0,
        unix_secs_spec(None) == 0,
{
}

} // verus!
