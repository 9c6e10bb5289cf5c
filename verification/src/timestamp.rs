//! Timestamp codec: the packed 32-bit exFAT date/time value plus the
//! 10-ms increment byte and the UTC-offset byte, decoded to calendar
//! fields and on to seconds since the Unix epoch, and encoded back.

use vstd::prelude::*;

verus! {

/// Calendar fields carried by one packed timestamp. `offset_seconds`
/// is the UTC offset the volume recorded, in seconds east.
#[derive(Clone, Copy, Debug, PartialEq, Eq, Structural)]
pub struct DateTime {
    pub year: u16,
    pub month: u8,
    pub day: u8,
    pub hour: u8,
    pub minute: u8,
    pub second: u8,
    pub millisecond: u16,
    pub offset_seconds: i32,
}

/// The millisecond carry: one extra second when the 10-ms increment
/// byte holds a full second or more.
pub open spec fn ms_carry(b_ms: u8) -> u8 {
    if 10 * b_ms > 999 {
        1u8
    } else {
        0u8
    }
}

/// The calendar fields packed into bytes `b1..b4` (seconds through
/// year), the 10-ms increment byte `b_ms` and the UTC-offset byte
/// `b_tz`, extracted with no range validation.
pub open spec fn decode_fields_spec(b1: u8, b2: u8, b3: u8, b4: u8, b_ms: u8, b_tz: u8) -> DateTime {
    DateTime {
        year: (1980 + ((b4 & 0xfe) >> 1)) as u16,
        month: ((b3 & 0xe0) >> 5) | ((b4 & 0x01) << 3),
        day: b3 & 0x1f,
        hour: (b2 & 0xf8) >> 3,
        minute: ((b1 & 0xe0) >> 5) | ((b2 & 0x07) << 3),
        second: ((b1 & 0x1f) * 2 + ms_carry(b_ms)) as u8,
        millisecond: (10 * b_ms - 1000 * ms_carry(b_ms)) as u16,
        offset_seconds: if b_tz & 0x80 == 0 {
            0i32
        } else if b_tz & 0x40 == 0 {
            (900 * (b_tz & 0x3f)) as i32
        } else {
            (-57600 + 900 * (b_tz & 0x3f)) as i32
        },
    }
}

/// Unpacks a raw timestamp into its calendar fields.
pub fn bytes_to_fields(b1: u8, b2: u8, b3: u8, b4: u8, b_ms: u8, b_tz: u8) -> (r: DateTime)
    ensures
        r == decode_fields_spec(b1, b2, b3, b4, b_ms, b_tz),
{
    proof {
        assert((b1 & 0x1f) <= 31 && ((b1 & 0xe0) >> 5) <= 7 && (b2 & 0x07) <= 7 && ((b2 & 0xf8)
            >> 3) <= 31 && ((b3 & 0xe0) >> 5) <= 7 && (b4 & 0x01) <= 1 && ((b4 & 0xfe) >> 1) <= 127
            && (b_tz & 0x3f) <= 63) by (bit_vector);
    }
    let ms_total: u16 = 10 * (b_ms as u16);
    let carry: u8 = if ms_total > 999 {
        1
    } else {
        0
    };
    let second: u8 = (b1 & 0x1f) * 2 + carry;
    let millisecond: u16 = ms_total - 1000 * (carry as u16);
    let minute: u8 = ((b1 & 0xe0) >> 5) | ((b2 & 0x07) << 3);
    let hour: u8 = (b2 & 0xf8) >> 3;
    let day: u8 = b3 & 0x1f;
    let month: u8 = ((b3 & 0xe0) >> 5) | ((b4 & 0x01) << 3);
    let year: u16 = 1980 + ((b4 & 0xfe) >> 1) as u16;
    let offset_seconds: i32 = if b_tz & 0x80 == 0 {
        0
    } else if b_tz & 0x40 == 0 {
        900 * ((b_tz & 0x3f) as i32)
    } else {
        -57600 + 900 * ((b_tz & 0x3f) as i32)
    };
    DateTime { year, month, day, hour, minute, second, millisecond, offset_seconds }
}

/// The validation ranges of the format: any field outside them makes
/// the whole timestamp decode to the zero sentinel.
pub open spec fn fields_in_range(dt: DateTime) -> bool {
    &&& dt.second <= 60
    &&& dt.minute <= 59
    &&& dt.hour <= 23
    &&& 1 <= dt.day <= 31
    &&& 1 <= dt.month <= 12
    &&& 1980 <= dt.year <= 2107
}

/// `y` is a Gregorian leap year.
pub open spec fn is_leap_year(y: int) -> bool {
    y % 4 == 0 && (y % 100 != 0 || y % 400 == 0)
}

/// Days in month `m` of year `y`.
pub open spec fn days_in_month(y: int, m: int) -> int {
    if m == 2 {
        if is_leap_year(y) {
            29int
        } else {
            28int
        }
    } else if m == 4 || m == 6 || m == 9 || m == 11 {
        30int
    } else {
        31int
    }
}

/// The fields name an actual UTC-convertible instant: in range, the
/// day exists in its month, and the second is a clock second.
pub open spec fn is_real_instant(dt: DateTime) -> bool {
    &&& fields_in_range(dt)
    &&& dt.second <= 59
    &&& dt.day <= days_in_month(dt.year as int, dt.month as int)
}

/// Days from 1970-01-01 to the civil date `y-m-d`, counted over
/// 400-year Gregorian eras.
pub open spec fn days_from_civil(y: int, m: int, d: int) -> int {
    let yy = if m <= 2 {
        y - 1
    } else {
        y
    };
    let era = yy / 400;
    let yoe = yy - era * 400;
    let mp = if m > 2 {
        m - 3
    } else {
        m + 9
    };
    let doy = (153 * mp + 2) / 5 + d - 1;
    let doe = yoe * 365 + yoe / 4 - yoe / 100 + doy;
    era * 146097 + doe - 719468
}

/// Seconds since the Unix epoch of the instant the fields name: the
/// local calendar time shifted back by the recorded UTC offset. The
/// sub-second part does not reach the epoch seconds.
pub open spec fn epoch_spec(dt: DateTime) -> int {
    days_from_civil(dt.year as int, dt.month as int, dt.day as int) * 86400 + dt.hour * 3600
        + dt.minute * 60 + dt.second - dt.offset_seconds
}

/// Every real instant of the representable range lies strictly after
/// the epoch, so the zero sentinel can never name a real instant.
pub proof fn lemma_epoch_positive(dt: DateTime)
    requires
        is_real_instant(dt),
        -57600 <= dt.offset_seconds <= 56700,
    ensures
        epoch_spec(dt) > 0,
{
    let y = dt.year as int;
    let m = dt.month as int;
    let d = dt.day as int;
    let yy = if m <= 2 {
        y - 1
    } else {
        y
    };
    let era = yy / 400;
    let yoe = yy - era * 400;
    assert(1979 <= yy <= 2107);
    assert(era == 4 || era == 5) by (nonlinear_arith)
        requires
            1979 <= yy <= 2107,
            era == yy / 400,
    ;
    assert(yoe == yy % 400) by (nonlinear_arith)
        requires
            era == yy / 400,
            yoe == yy - era * 400,
    ;
    assert(0 <= yoe < 400);
    let mp = if m > 2 {
        m - 3
    } else {
        m + 9
    };
    let doy = (153 * mp + 2) / 5 + d - 1;
    assert(0 <= (153 * mp + 2) / 5);
    assert(doy >= 0);
    let doe = yoe * 365 + yoe / 4 - yoe / 100 + doy;
    assert(yoe / 100 <= 3 && yoe / 4 >= 0);
    if era == 4 {
        assert(yoe >= 379);
        assert(yoe * 365 >= 379 * 365) by (nonlinear_arith)
            requires
                yoe >= 379,
        ;
        assert(doe >= 138332);
    } else {
        assert(yoe * 365 >= 0) by (nonlinear_arith)
            requires
                yoe >= 0,
        ;
        assert(doe >= -3);
    }
    assert(days_from_civil(y, m, d) >= 1014);
    assert(days_from_civil(y, m, d) * 86400 >= 1014 * 86400) by (nonlinear_arith)
        requires
            days_from_civil(y, m, d) >= 1014,
    ;
}

/// Days from the epoch stay small enough for the second arithmetic.
proof fn lemma_days_bounds(y: int, m: int, d: int)
    requires
        1980 <= y <= 2107,
        1 <= m <= 12,
        1 <= d <= 31,
    ensures
        1014 <= days_from_civil(y, m, d) <= 51000,
{
    let yy = if m <= 2 {
        y - 1
    } else {
        y
    };
    let era = yy / 400;
    let yoe = yy - era * 400;
    assert(era == 4 || era == 5) by (nonlinear_arith)
        requires
            1979 <= yy <= 2107,
            era == yy / 400,
    ;
    assert(yoe == yy % 400) by (nonlinear_arith)
        requires
            era == yy / 400,
            yoe == yy - era * 400,
    ;
    let mp = if m > 2 {
        m - 3
    } else {
        m + 9
    };
    let doy = (153 * mp + 2) / 5 + d - 1;
    assert((153 * mp + 2) / 5 <= 337);
    assert(doy <= 367);
    let doe = yoe * 365 + yoe / 4 - yoe / 100 + doy;
    if era == 4 {
        assert(379 <= yoe < 400);
        assert(yoe * 365 >= 379 * 365 && yoe * 365 <= 399 * 365) by (nonlinear_arith)
            requires
                379 <= yoe <= 399,
        ;
        assert(doe >= 138332 && doe <= 145635 + 99 + 367);
    } else {
        assert(0 <= yoe <= 107);
        assert(yoe * 365 >= 0 && yoe * 365 <= 107 * 365) by (nonlinear_arith)
            requires
                0 <= yoe <= 107,
        ;
        assert(doe >= -3 && doe <= 39055 + 26 + 367);
    }
}

/// Computes the epoch seconds of a real instant.
pub fn epoch_seconds(dt: &DateTime) -> (r: i64)
    requires
        is_real_instant(*dt),
        -57600 <= dt.offset_seconds <= 56700,
    ensures
        r == epoch_spec(*dt),
        r > 0,
{
    proof {
        lemma_days_bounds(dt.year as int, dt.month as int, dt.day as int);
        lemma_epoch_positive(*dt);
    }
    let y: u64 = dt.year as u64;
    let m: u64 = dt.month as u64;
    let d: u64 = dt.day as u64;
    let yy: u64 = if m <= 2 {
        y - 1
    } else {
        y
    };
    let era: u64 = yy / 400;
    proof {
        assert(era * 400 <= yy) by (nonlinear_arith)
            requires
                era == yy / 400,
                yy >= 0,
        ;
        assert(yy - era * 400 < 400) by (nonlinear_arith)
            requires
                era == yy / 400,
                yy >= 0,
        ;
    }
    let yoe: u64 = yy - era * 400;
    let mp: u64 = if m > 2 {
        m - 3
    } else {
        m + 9
    };
    let doy: u64 = (153 * mp + 2) / 5 + d - 1;
    let doe: u64 = yoe * 365 + yoe / 4 - yoe / 100;
    proof {
        assert(yoe * 365 >= yoe / 100 && yoe * 365 <= 399 * 365) by (nonlinear_arith)
            requires
                0 <= yoe < 400,
        ;
    }
    let doe: u64 = doe + doy;
    let days: u64 = era * 146097 + doe - 719468;
    let local: u64 = days * 86400 + (dt.hour as u64) * 3600 + (dt.minute as u64) * 60
        + (dt.second as u64);
    local as i64 - dt.offset_seconds as i64
}

/// What the packed bytes say as epoch seconds: the fields' instant if
/// they name one, and the zero sentinel otherwise.
pub open spec fn bytes_to_time_spec(b1: u8, b2: u8, b3: u8, b4: u8, b_ms: u8, b_tz: u8) -> int {
    let dt = decode_fields_spec(b1, b2, b3, b4, b_ms, b_tz);
    if is_real_instant(dt) {
        epoch_spec(dt)
    } else {
        0
    }
}

/// Checks that the fields name a real instant, as the decoder's
/// validation does before converting to epoch seconds.
pub fn fields_valid(dt: &DateTime) -> (r: bool)
    ensures
        r == is_real_instant(*dt),
{
    let leap: bool = dt.year % 4 == 0 && (dt.year % 100 != 0 || dt.year % 400 == 0);
    let dim: u8 = if dt.month == 2 {
        if leap {
            29
        } else {
            28
        }
    } else if dt.month == 4 || dt.month == 6 || dt.month == 9 || dt.month == 11 {
        30
    } else {
        31
    };
    dt.second <= 59 && dt.minute <= 59 && dt.hour <= 23 && 1 <= dt.day && dt.day <= dim && 1
        <= dt.month && dt.month <= 12 && 1980 <= dt.year && dt.year <= 2107
}

/// Decodes one packed timestamp to epoch seconds, with the zero
/// sentinel — never a real instant — for fields that name none.
pub fn bytes_to_time(b1: u8, b2: u8, b3: u8, b4: u8, b_ms: u8, b_tz: u8) -> (r: i64)
    ensures
        r == bytes_to_time_spec(b1, b2, b3, b4, b_ms, b_tz),
        r == 0 <==> !is_real_instant(decode_fields_spec(b1, b2, b3, b4, b_ms, b_tz)),
{
    let dt = bytes_to_fields(b1, b2, b3, b4, b_ms, b_tz);
    proof {
        assert((b_tz & 0x3f) <= 63) by (bit_vector);
    }
    if fields_valid(&dt) {
        epoch_seconds(&dt)
    } else {
        0
    }
}

/// The packed byte forms of the fields, inverse to the decoding on
/// every legal combination.
pub open spec fn encode_fields_spec(dt: DateTime) -> (u8, u8, u8, u8, u8, u8) {
    (
        ((dt.second / 2) | ((dt.minute & 0x07) << 5)) as u8,
        ((dt.minute >> 3) | (dt.hour << 3)) as u8,
        (dt.day | ((dt.month & 0x07) << 5)) as u8,
        ((dt.month >> 3) | (((dt.year - 1980) as u8) << 1)) as u8,
        ((dt.millisecond + 1000 * (dt.second as u16 % 2)) / 10) as u8,
        (0x80u8 | (if dt.offset_seconds >= 0 {
            (dt.offset_seconds / 900) as u8
        } else {
            ((dt.offset_seconds + 57600) / 900 + 64) as u8
        })) as u8,
    )
}

/// Fields that the packed form can carry.
pub open spec fn encodable_fields(dt: DateTime) -> bool {
    &&& 1980 <= dt.year <= 2107
    &&& dt.month <= 15
    &&& dt.day <= 31
    &&& dt.hour <= 31
    &&& dt.minute <= 63
    &&& dt.second <= 63
    &&& dt.millisecond <= 999
    &&& -57600 <= dt.offset_seconds <= 56700
}

/// Packs calendar fields back into the raw timestamp bytes. The
/// offset byte always carries the offset-valid bit.
pub fn fields_to_bytes(dt: &DateTime) -> (r: (u8, u8, u8, u8, u8, u8))
    requires
        encodable_fields(*dt),
    ensures
        r == encode_fields_spec(*dt),
{
    let b1: u8 = (dt.second / 2) | ((dt.minute & 0x07) << 5);
    let b2: u8 = (dt.minute >> 3) | (dt.hour << 3);
    let b3: u8 = dt.day | ((dt.month & 0x07) << 5);
    let b4: u8 = (dt.month >> 3) | (((dt.year - 1980) as u8) << 1);
    let b_ms: u8 = ((dt.millisecond + 1000 * (dt.second as u16 % 2)) / 10) as u8;
    let b_tz: u8 = 0x80 | (if dt.offset_seconds >= 0 {
        (dt.offset_seconds / 900) as u8
    } else {
        ((dt.offset_seconds + 57600) / 900 + 64) as u8
    });
    proof {
        let mi = dt.minute;
        let mo = dt.month;
        assert((mi & 0x07) << 5 <= 0xe0 && (mo & 0x07) << 5 <= 0xe0) by (bit_vector);
    }
    (b1, b2, b3, b4, b_ms, b_tz)
}

/// A raw timestamp the codec round-trips: the increment byte holds
/// fewer than 20 full 10-ms steps of two seconds, the offset byte has
/// its valid bit set, and the decoded fields lie in the validation
/// ranges.
pub open spec fn legal_timestamp_bytes(b1: u8, b2: u8, b3: u8, b4: u8, b_ms: u8, b_tz: u8) -> bool {
    &&& b_ms < 200
    &&& b_tz & 0x80 != 0
    &&& fields_in_range(decode_fields_spec(b1, b2, b3, b4, b_ms, b_tz))
}

/// Decoding a legal raw timestamp and encoding the fields again
/// reproduces the original six bytes.
pub proof fn lemma_timestamp_round_trip(b1: u8, b2: u8, b3: u8, b4: u8, b_ms: u8, b_tz: u8)
    requires
        legal_timestamp_bytes(b1, b2, b3, b4, b_ms, b_tz),
    ensures
        encode_fields_spec(decode_fields_spec(b1, b2, b3, b4, b_ms, b_tz)) == (
            b1,
            b2,
            b3,
            b4,
            b_ms,
            b_tz,
        ),
{
    let dt = decode_fields_spec(b1, b2, b3, b4, b_ms, b_tz);
    let c = ms_carry(b_ms);
    assert(c == if b_ms >= 100 {
        1u8
    } else {
        0u8
    });
    let s: u8 = dt.second;
    let mi: u8 = dt.minute;
    let h: u8 = dt.hour;
    let d: u8 = dt.day;
    let mo: u8 = dt.month;
    let yr: u16 = dt.year;
    assert(s == ((b1 & 0x1f) * 2 + c) as u8 && dt.millisecond == 10 * b_ms - 1000 * c);
    // Byte 1: the second field floors the carry away; the minute's low
    // bits sit above it.
    assert((s / 2 | (mi & 0x07) << 5) == b1) by (bit_vector)
        requires
            c <= 1,
            s == ((b1 & 0x1f) * 2 + c) as u8,
            mi == ((b1 & 0xe0) >> 5) | ((b2 & 0x07) << 3),
    ;
    // Byte 2: minute high bits and hour.
    assert((mi >> 3 | h << 3) == b2) by (bit_vector)
        requires
            mi == ((b1 & 0xe0) >> 5) | ((b2 & 0x07) << 3),
            h == (b2 & 0xf8) >> 3,
    ;
    // Byte 3: day and month low bits.
    assert((d | (mo & 0x07) << 5) == b3) by (bit_vector)
        requires
            d == b3 & 0x1f,
            mo == ((b3 & 0xe0) >> 5) | ((b4 & 0x01) << 3),
    ;
    // Byte 4: month high bit and year.
    assert(yr == (1980 + ((b4 & 0xfe) >> 1)) as u16);
    assert((yr - 1980) as u8 == (b4 & 0xfe) >> 1) by (bit_vector)
        requires
            yr == (1980 + ((b4 & 0xfe) >> 1)) as u16,
    ;
    assert((mo >> 3 | ((yr - 1980) as u8) << 1) == b4) by (bit_vector)
        requires
            mo == ((b3 & 0xe0) >> 5) | ((b4 & 0x01) << 3),
            (yr - 1980) as u8 == (b4 & 0xfe) >> 1,
    ;
    // Increment byte: the carry comes back out of the second's parity.
    assert(s as u16 % 2 == c as u16) by (bit_vector)
        requires
            s == ((b1 & 0x1f) * 2 + c) as u8,
            c <= 1,
    ;
    assert((dt.millisecond + 1000 * (s as u16 % 2)) / 10 == b_ms);
    // Offset byte: both signs recover the raw seven bits under the
    // valid bit.
    let low6: u8 = b_tz & 0x3f;
    let off: i32 = dt.offset_seconds;
    assert(low6 <= 63) by (bit_vector)
        requires
            low6 == b_tz & 0x3f,
    ;
    if b_tz & 0x40 == 0 {
        assert(off == 900 * low6);
        assert(off >= 0);
        assert((900 * (low6 as int)) / 900 == low6 as int) by (nonlinear_arith);
        assert((off / 900) as u8 == low6);
        assert((0x80u8 | low6) == b_tz) by (bit_vector)
            requires
                b_tz & 0x80 != 0,
                b_tz & 0x40 == 0,
                low6 == b_tz & 0x3f,
        ;
    } else {
        assert(off == -57600 + 900 * low6);
        assert(off < 0);
        assert((900 * (low6 as int)) / 900 == low6 as int) by (nonlinear_arith);
        assert((off + 57600) / 900 == low6 as int);
        let z: u8 = ((off + 57600) / 900 + 64) as u8;
        assert(z == low6 + 64);
        assert((0x80u8 | z) == b_tz) by (bit_vector)
            requires
                b_tz & 0x80 != 0,
                b_tz & 0x40 != 0,
                z == (b_tz & 0x3f) + 64,
        ;
    }
}

} // verus!

