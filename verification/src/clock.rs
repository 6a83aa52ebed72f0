//! The `MM:SS:mmm` clock strings carried in every frame: minutes mod 60,
//! seconds mod 60, milliseconds, with widths 2/2/3, separated by colons.
//! The clock wraps after one hour and is only ever compared on one peer.

use vstd::prelude::*;

use crate::bytes::lemma_split_prepend;
use crate::bytes::lemma_split_whole;
use crate::bytes::split_at_byte;
use crate::bytes::split_bytes;
use crate::bytes::views;

verus! {

/// ASCII decimal digit.
pub open spec fn is_digit(b: u8) -> bool {
    48 <= b <= 57
}

/// Every byte of `s` is a decimal digit.
pub open spec fn all_digits(s: Seq<u8>) -> bool {
    forall|j: int| 0 <= j < s.len() ==> is_digit(s[j])
}

/// The number written by the digit string `s` (0 for the empty string).
pub open spec fn digits_value(s: Seq<u8>) -> int
    decreases s.len(),
{
    if s.len() == 0 {
        0
    } else {
        digits_value(s.drop_last()) * 10 + (s.last() - 48)
    }
}

/// The colon-separated fields of a clock string.
pub open spec fn timestamp_fields(s: Seq<u8>) -> Seq<Seq<u8>> {
    split_bytes(s, 58)
}

/// A clock string: exactly three colon-separated nonempty digit strings.
pub open spec fn is_valid_timestamp(s: Seq<u8>) -> bool {
    let ps = timestamp_fields(s);
    &&& ps.len() == 3
    &&& ps[0].len() > 0
    &&& ps[1].len() > 0
    &&& ps[2].len() > 0
    &&& all_digits(ps[0])
    &&& all_digits(ps[1])
    &&& all_digits(ps[2])
}

/// The milliseconds a clock string denotes: `mm*60000 + ss*1000 + ms`.
pub open spec fn timestamp_value(s: Seq<u8>) -> int {
    let ps = timestamp_fields(s);
    digits_value(ps[0]) * 60000 + digits_value(ps[1]) * 1000 + digits_value(ps[2])
}

/// A two-digit rendering of `n`, `0 <= n < 100`.
pub open spec fn two_digit_str(n: int) -> Seq<u8> {
    seq![(48 + n / 10) as u8, (48 + n % 10) as u8]
}

/// A three-digit rendering of `n`, `0 <= n < 1000`.
pub open spec fn three_digit_str(n: int) -> Seq<u8> {
    seq![(48 + n / 100) as u8, (48 + (n / 10) % 10) as u8, (48 + n % 10) as u8]
}

/// The clock string for `t` milliseconds since the clock's origin.
pub open spec fn timestamp_str(t: int) -> Seq<u8> {
    two_digit_str((t / 60000) % 60) + seq![58u8] + two_digit_str((t / 1000) % 60) + seq![58u8]
        + three_digit_str(t % 1000)
}

/// A digit string names a nonnegative number.
proof fn lemma_digits_nonneg(s: Seq<u8>)
    requires
        all_digits(s),
    ensures
        digits_value(s) >= 0,
    decreases s.len(),
{
    if s.len() > 0 {
        lemma_digits_nonneg(s.drop_last());
    }
}

/// Reading one more digit multiplies the prefix value by ten and adds it.
proof fn lemma_digits_step(s: Seq<u8>, i: int)
    requires
        0 <= i < s.len(),
    ensures
        digits_value(s.take(i + 1)) == digits_value(s.take(i)) * 10 + (s[i] - 48),
{
    assert(s.take(i + 1).drop_last() =~= s.take(i));
    assert(s.take(i + 1).last() == s[i]);
}

/// A digit-string prefix never names a larger number than the whole string.
proof fn lemma_digits_take_le(s: Seq<u8>, i: int)
    requires
        all_digits(s),
        0 <= i <= s.len(),
    ensures
        0 <= digits_value(s.take(i)) <= digits_value(s),
    decreases s.len() - i,
{
    if i == s.len() {
        assert(s.take(i) =~= s);
        lemma_digits_nonneg(s);
    } else {
        lemma_digits_take_le(s, i + 1);
        lemma_digits_step(s, i);
        assert(forall|j: int| 0 <= j < i ==> s.take(i)[j] == s[j]);
        lemma_digits_nonneg(s.take(i));
    }
}

/// Reads the number a nonempty digit string names.
fn parse_digits(s: &[u8]) -> (r: i32)
    requires
        all_digits(s@),
        digits_value(s@) <= i32::MAX as int,
    ensures
        r as int == digits_value(s@),
{
    let mut acc: i32 = 0;
    let mut i: usize = 0;
    proof {
        assert(s@.take(0) =~= Seq::<u8>::empty());
    }
    while i < s.len()
        invariant
            0 <= i <= s@.len(),
            all_digits(s@),
            digits_value(s@) <= i32::MAX as int,
            acc as int == digits_value(s@.take(i as int)),
        decreases s@.len() - i,
    {
        proof {
            lemma_digits_step(s@, i as int);
            lemma_digits_take_le(s@, i as int);
            lemma_digits_take_le(s@, i + 1 as int);
        }
        acc = acc * 10 + (s[i] - 48) as i32;
        i += 1;
    }
    proof {
        assert(s@.take(s@.len() as int) =~= s@);
    }
    acc
}

/// Converts a clock string back to milliseconds: `mm*60000 + ss*1000 + ms`.
///
/// The caller owes a well-formed clock string whose value fits the result
/// type; the strings this crate formats always qualify.
pub fn parse_and_convert_to_ms(time_string: &[u8]) -> (r: i32)
    requires
        is_valid_timestamp(time_string@),
        timestamp_value(time_string@) <= i32::MAX as int,
    ensures
        r as int == timestamp_value(time_string@),
{
    let parts = split_at_byte(time_string, 58);
    proof {
        assert(views(parts@).len() == 3);
        assert(parts@.len() == 3);
        assert(views(parts@)[0] == parts@[0]@);
        assert(views(parts@)[1] == parts@[1]@);
        assert(views(parts@)[2] == parts@[2]@);
        let ps = timestamp_fields(time_string@);
        lemma_digits_nonneg(ps[0]);
        lemma_digits_nonneg(ps[1]);
        lemma_digits_nonneg(ps[2]);
        assert(digits_value(ps[0]) <= digits_value(ps[0]) * 60000) by (nonlinear_arith)
            requires
                digits_value(ps[0]) >= 0,
        ;
        assert(digits_value(ps[1]) <= digits_value(ps[1]) * 1000) by (nonlinear_arith)
            requires
                digits_value(ps[1]) >= 0,
        ;
    }
    let minutes = parse_digits(parts[0].as_slice());
    let seconds = parse_digits(parts[1].as_slice());
    let milliseconds = parse_digits(parts[2].as_slice());
    minutes * 60000 + seconds * 1000 + milliseconds
}

/// The two-digit rendering of `0 <= n < 100` is a digit string naming `n`.
proof fn lemma_two_digit_value(n: int)
    requires
        0 <= n < 100,
    ensures
        two_digit_str(n).len() == 2,
        all_digits(two_digit_str(n)),
        digits_value(two_digit_str(n)) == n,
{
    let s = two_digit_str(n);
    assert(0 <= n / 10 <= 9) by (nonlinear_arith)
        requires
            0 <= n < 100,
    ;
    assert(0 <= n % 10 <= 9);
    let d1 = s.drop_last();
    assert(d1 =~= seq![(48 + n / 10) as u8]);
    assert(d1.drop_last() =~= Seq::<u8>::empty());
    assert(digits_value(d1.drop_last()) == 0);
    assert(digits_value(d1) == digits_value(d1.drop_last()) * 10 + (d1.last() - 48));
    assert(d1.last() == (48 + n / 10) as u8);
    assert(digits_value(d1) == n / 10);
    assert(digits_value(s) == digits_value(d1) * 10 + (s.last() - 48));
    assert(s.last() == (48 + n % 10) as u8);
    assert(digits_value(s) == (n / 10) * 10 + n % 10);
    vstd::arithmetic::div_mod::lemma_fundamental_div_mod(n, 10);
}

/// The three-digit rendering of `0 <= n < 1000` is a digit string naming `n`.
proof fn lemma_three_digit_value(n: int)
    requires
        0 <= n < 1000,
    ensures
        three_digit_str(n).len() == 3,
        all_digits(three_digit_str(n)),
        digits_value(three_digit_str(n)) == n,
{
    let s = three_digit_str(n);
    assert(0 <= n / 100 <= 9) by (nonlinear_arith)
        requires
            0 <= n < 1000,
    ;
    assert(0 <= (n / 10) % 10 <= 9);
    assert(0 <= n % 10 <= 9);
    let d1 = s.drop_last();
    let d2 = d1.drop_last();
    assert(d1 =~= seq![(48 + n / 100) as u8, (48 + (n / 10) % 10) as u8]);
    assert(d2 =~= seq![(48 + n / 100) as u8]);
    assert(d2.drop_last() =~= Seq::<u8>::empty());
    assert(digits_value(d2.drop_last()) == 0);
    assert(digits_value(d2) == digits_value(d2.drop_last()) * 10 + (d2.last() - 48));
    assert(d2.last() == (48 + n / 100) as u8);
    assert(digits_value(d2) == n / 100);
    assert(digits_value(d1) == digits_value(d2) * 10 + (d1.last() - 48));
    assert(d1.last() == (48 + (n / 10) % 10) as u8);
    assert(digits_value(d1) == (n / 100) * 10 + (n / 10) % 10);
    assert(digits_value(s) == digits_value(d1) * 10 + (s.last() - 48));
    assert(s.last() == (48 + n % 10) as u8);
    assert(digits_value(s) == ((n / 100) * 10 + (n / 10) % 10) * 10 + n % 10);
    vstd::arithmetic::div_mod::lemma_fundamental_div_mod(n, 100);
    vstd::arithmetic::div_mod::lemma_breakdown(n, 10, 10);
    assert(n % 100 == 10 * ((n / 10) % 10) + n % 10);
    assert(((n / 100) * 10 + (n / 10) % 10) * 10 + n % 10 == (n / 100) * 100 + ((n / 10) % 10) * 10
        + n % 10) by (nonlinear_arith);
}

/// Formatting then parsing gives back the milliseconds, truncated to the
/// hour window the `MM:SS:mmm` clock can express.
pub proof fn lemma_timestamp_roundtrip(t: int)
    requires
        t >= 0,
    ensures
        is_valid_timestamp(timestamp_str(t)),
        timestamp_value(timestamp_str(t)) == t % 3600000,
{
    let mm = (t / 60000) % 60;
    let ss = (t / 1000) % 60;
    let msr = t % 1000;
    vstd::arithmetic::div_mod::lemma_div_pos_is_pos(t, 60000);
    vstd::arithmetic::div_mod::lemma_div_pos_is_pos(t, 1000);
    let f0 = two_digit_str(mm);
    let f1 = two_digit_str(ss);
    let f2 = three_digit_str(msr);
    lemma_two_digit_value(mm);
    lemma_two_digit_value(ss);
    lemma_three_digit_value(msr);
    assert(timestamp_str(t) =~= f0 + seq![58u8] + (f1 + seq![58u8] + f2));
    assert(forall|j: int| 0 <= j < f0.len() ==> f0[j] != 58);
    assert(forall|j: int| 0 <= j < f1.len() ==> f1[j] != 58);
    assert(forall|j: int| 0 <= j < f2.len() ==> f2[j] != 58);
    lemma_split_prepend(f0, f1 + seq![58u8] + f2, 58);
    lemma_split_prepend(f1, f2, 58);
    lemma_split_whole(f2, 58);
    let ps = timestamp_fields(timestamp_str(t));
    assert(ps =~= seq![f0, f1, f2]);
    vstd::arithmetic::div_mod::lemma_breakdown(t, 60000, 60);
    vstd::arithmetic::div_mod::lemma_breakdown(t, 1000, 60);
}

/// A clock string is nine bytes of digits and colons: free of `|`, free of
/// whitespace, and unchanged by trimming.
pub proof fn lemma_timestamp_str_field(t: int)
    requires
        t >= 0,
    ensures
        timestamp_str(t).len() == 9,
        forall|j: int|
            0 <= j < timestamp_str(t).len() ==> 48 <= #[trigger] timestamp_str(t)[j] <= 58,
        crate::bytes::trim_spec(timestamp_str(t)) == timestamp_str(t),
{
    let s = timestamp_str(t);
    let mm = (t / 60000) % 60;
    let ss = (t / 1000) % 60;
    let msr = t % 1000;
    vstd::arithmetic::div_mod::lemma_div_pos_is_pos(t, 60000);
    vstd::arithmetic::div_mod::lemma_div_pos_is_pos(t, 1000);
    assert(0 <= mm < 60 && 0 <= ss < 60 && 0 <= msr < 1000);
    assert(0 <= mm / 10 <= 9 && 0 <= ss / 10 <= 9) by (nonlinear_arith)
        requires
            0 <= mm < 60 && 0 <= ss < 60,
    ;
    assert(0 <= msr / 100 <= 9) by (nonlinear_arith)
        requires
            0 <= msr < 1000,
    ;
    assert(s =~= seq![
        (48 + mm / 10) as u8,
        (48 + mm % 10) as u8,
        58u8,
        (48 + ss / 10) as u8,
        (48 + ss % 10) as u8,
        58u8,
        (48 + msr / 100) as u8,
        (48 + (msr / 10) % 10) as u8,
        (48 + msr % 10) as u8,
    ]);
    assert(forall|j: int| 0 <= j < s.len() ==> 48 <= #[trigger] s[j] <= 58);
    crate::bytes::lemma_trim_id(s);
}

/// Relies on `chrono::Utc::now`: the current wall-clock instant as
/// milliseconds since the Unix epoch.  Nothing is assumed of the clock's
/// value.
#[verifier::external_body]
pub fn now_unix_millis() -> (r: i64) {
    chrono::Utc::now().timestamp_millis()
}

/// Formats `t` milliseconds as the `MM:SS:mmm` clock string.
pub fn format_timestamp(t: u64) -> (r: Vec<u8>)
    ensures
        r@ == timestamp_str(t as int),
        is_valid_timestamp(r@),
        timestamp_value(r@) == (t as int) % 3600000,
{
    let mm = (t / 60000) % 60;
    let ss = (t / 1000) % 60;
    let msr = t % 1000;
    let mut r: Vec<u8> = Vec::new();
    r.push((48 + mm / 10) as u8);
    r.push((48 + mm % 10) as u8);
    r.push(58);
    r.push((48 + ss / 10) as u8);
    r.push((48 + ss % 10) as u8);
    r.push(58);
    r.push((48 + msr / 100) as u8);
    r.push((48 + (msr / 10) % 10) as u8);
    r.push((48 + msr % 10) as u8);
    proof {
        assert(r@ =~= timestamp_str(t as int));
        lemma_timestamp_roundtrip(t as int);
    }
    r
}

} // verus!
