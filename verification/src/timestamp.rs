use vstd::prelude::*;

verus! {

/// A UTC instant, held as plain calendar and clock fields.
///
/// Timestamps are rendered into and read back from the fixed-width RFC 3339
/// form `YYYY-MM-DDTHH:MM:SS.NNNNNNNNNZ` (30 bytes) by `format_ts` and
/// `parse_ts` below.
#[derive(Clone, Copy, Debug, PartialEq, Eq, Structural)]
pub struct Timestamp {
    pub year: u16,
    pub month: u8,
    pub day: u8,
    pub hour: u8,
    pub minute: u8,
    pub second: u8,
    pub nanos: u32,
}

pub open spec fn spec_is_leap_year(y: int) -> bool {
    y % 4 == 0 && (y % 100 != 0 || y % 400 == 0)
}

pub open spec fn spec_days_in_month(y: int, m: int) -> int {
    if m == 2 {
        if spec_is_leap_year(y) {
            29
        } else {
            28
        }
    } else if m == 4 || m == 6 || m == 9 || m == 11 {
        30
    } else {
        31
    }
}

impl Timestamp {
    /// A well-formed timestamp: a valid civil date of the years 0 to 9999
    /// and a valid clock reading, with sub-second precision in nanoseconds.
    pub open spec fn wf(self) -> bool {
        &&& self.year <= 9999
        &&& 1 <= self.month <= 12
        &&& 1 <= self.day <= spec_days_in_month(self.year as int, self.month as int)
        &&& self.hour <= 23
        &&& self.minute <= 59
        &&& self.second <= 59
        &&& self.nanos <= 999_999_999
    }
}

pub fn days_in_month(y: u16, m: u8) -> (r: u8)
    ensures
        r == spec_days_in_month(y as int, m as int),
{
    if m == 2 {
        if y % 4 == 0 && (y % 100 != 0 || y % 400 == 0) {
            29
        } else {
            28
        }
    } else if m == 4 || m == 6 || m == 9 || m == 11 {
        30
    } else {
        31
    }
}

/// The ASCII digit byte for a value of 0 to 9.
pub open spec fn dig(n: int) -> u8 {
    (0x30 + n) as u8
}

/// Two ASCII digits, zero padded.
pub open spec fn d2(n: int) -> Seq<u8> {
    seq![dig(n / 10), dig(n % 10)]
}

/// Four ASCII digits, zero padded.
pub open spec fn d4(n: int) -> Seq<u8> {
    d2(n / 100) + d2(n % 100)
}

/// Nine ASCII digits, zero padded.
pub open spec fn d9(n: int) -> Seq<u8> {
    seq![dig(n / 100000000)] + d4((n % 100000000) / 10000) + d4((n % 100000000) % 10000)
}

/// The 30-byte canonical RFC 3339 rendering `YYYY-MM-DDTHH:MM:SS.NNNNNNNNNZ`.
pub open spec fn ts_bytes(t: Timestamp) -> Seq<u8> {
    d4(t.year as int) + seq![0x2du8] + d2(t.month as int) + seq![0x2du8] + d2(t.day as int)
        + seq![0x54u8] + d2(t.hour as int) + seq![0x3au8] + d2(t.minute as int) + seq![0x3au8]
        + d2(t.second as int) + seq![0x2eu8] + d9(t.nanos as int) + seq![0x5au8]
}

fn push_d2(out: &mut Vec<u8>, n: u8)
    requires
        n <= 99,
    ensures
        final(out)@ == old(out)@ + d2(n as int),
{
    out.push(0x30 + n / 10);
    out.push(0x30 + n % 10);
    assert(out@ =~= old(out)@ + d2(n as int));
}

fn push_d4(out: &mut Vec<u8>, n: u16)
    requires
        n <= 9999,
    ensures
        final(out)@ == old(out)@ + d4(n as int),
{
    push_d2(out, (n / 100) as u8);
    push_d2(out, (n % 100) as u8);
    assert(out@ =~= old(out)@ + d4(n as int));
}

fn push_d9(out: &mut Vec<u8>, n: u32)
    requires
        n <= 999_999_999,
    ensures
        final(out)@ == old(out)@ + d9(n as int),
{
    out.push(0x30 + (n / 100000000) as u8);
    let r: u32 = n % 100000000;
    push_d4(out, (r / 10000) as u16);
    push_d4(out, (r % 10000) as u16);
    assert(out@ =~= old(out)@ + d9(n as int));
}

/// Append the canonical 30-byte rendering of `t`.
pub fn format_ts(out: &mut Vec<u8>, t: &Timestamp)
    requires
        t.wf(),
    ensures
        final(out)@ == old(out)@ + ts_bytes(*t),
{
    push_d4(out, t.year);
    out.push(0x2d);
    push_d2(out, t.month);
    out.push(0x2d);
    push_d2(out, t.day);
    out.push(0x54);
    push_d2(out, t.hour);
    out.push(0x3a);
    push_d2(out, t.minute);
    out.push(0x3a);
    push_d2(out, t.second);
    out.push(0x2e);
    push_d9(out, t.nanos);
    out.push(0x5a);
    assert(out@ =~= old(out)@ + ts_bytes(*t));
}

fn parse_d2(v: &Vec<u8>, pos: usize) -> (r: Option<u8>)
    requires
        pos + 2 <= v.len(),
    ensures
        r matches Some(n) ==> n <= 99 && v@.subrange(pos as int, pos as int + 2) == d2(n as int),
        forall|m: int|
            0 <= m <= 99 && v@.subrange(pos as int, pos as int + 2) == d2(m) ==> r == Some(m as u8),
{
    let b0 = v[pos];
    let b1 = v[pos + 1];
    if 0x30 <= b0 && b0 <= 0x39 && 0x30 <= b1 && b1 <= 0x39 {
        let n = (b0 - 0x30) * 10 + (b1 - 0x30);
        proof {
            assert(v@.subrange(pos as int, pos as int + 2) =~= d2(n as int));
        }
        Some(n)
    } else {
        proof {
            assert forall|m: int|
                0 <= m <= 99 && v@.subrange(pos as int, pos as int + 2) == d2(m) implies false by {
                assert(v@.subrange(pos as int, pos as int + 2)[0] == dig(m / 10));
                assert(v@.subrange(pos as int, pos as int + 2)[1] == dig(m % 10));
            }
        }
        None
    }
}

fn parse_d4(v: &Vec<u8>, pos: usize) -> (r: Option<u16>)
    requires
        pos + 4 <= v.len(),
    ensures
        r matches Some(n) ==> n <= 9999 && v@.subrange(pos as int, pos as int + 4) == d4(n as int),
        forall|m: int|
            0 <= m <= 9999 && v@.subrange(pos as int, pos as int + 4) == d4(m) ==> r == Some(
                m as u16,
            ),
{
    let hi = parse_d2(v, pos);
    let lo = parse_d2(v, pos + 2);
    proof {
        assert(v@.subrange(pos as int, pos as int + 2) =~= v@.subrange(pos as int, pos as int + 4)
            .subrange(0, 2));
        assert(v@.subrange(pos as int + 2, pos as int + 4) =~= v@.subrange(
            pos as int,
            pos as int + 4,
        ).subrange(2, 4));
    }
    match (hi, lo) {
        (Some(a), Some(b)) => {
            let n = (a as u16) * 100 + (b as u16);
            proof {
                assert(v@.subrange(pos as int, pos as int + 4) =~= d4(n as int));
                assert forall|m: int|
                    0 <= m <= 9999 && v@.subrange(pos as int, pos as int + 4) == d4(m) implies n
                    == m by {
                    assert(d4(m).subrange(0, 2) =~= d2(m / 100));
                    assert(d4(m).subrange(2, 4) =~= d2(m % 100));
                }
            }
            Some(n)
        },
        _ => {
            proof {
                assert forall|m: int|
                    0 <= m <= 9999 && v@.subrange(pos as int, pos as int + 4) == d4(m) implies
                    false by {
                    assert(d4(m).subrange(0, 2) =~= d2(m / 100));
                    assert(d4(m).subrange(2, 4) =~= d2(m % 100));
                }
            }
            None
        },
    }
}

#[verifier::rlimit(90)]
fn parse_d9(v: &Vec<u8>, pos: usize) -> (r: Option<u32>)
    requires
        pos + 9 <= v.len(),
    ensures
        r matches Some(n) ==> n <= 999_999_999 && v@.subrange(pos as int, pos as int + 9) == d9(
            n as int,
        ),
        forall|m: int|
            0 <= m <= 999_999_999 && v@.subrange(pos as int, pos as int + 9) == d9(m) ==> r
                == Some(m as u32),
{
    let b0 = v[pos];
    let hi = parse_d4(v, pos + 1);
    let lo = parse_d4(v, pos + 5);
    proof {
        assert(v@.subrange(pos as int + 1, pos as int + 5) =~= v@.subrange(
            pos as int,
            pos as int + 9,
        ).subrange(1, 5));
        assert(v@.subrange(pos as int + 5, pos as int + 9) =~= v@.subrange(
            pos as int,
            pos as int + 9,
        ).subrange(5, 9));
    }
    if 0x30 <= b0 && b0 <= 0x39 {
        match (hi, lo) {
            (Some(a), Some(b)) => {
                let n = ((b0 - 0x30) as u32) * 100000000 + (a as u32) * 10000 + (b as u32);
                proof {
                    assert((a as int) * 10000 + (b as int) < 100000000);
                    assert(n as int == ((b0 - 0x30) as int) * 100000000 + (a as int) * 10000 + (b as int));
                    assert(n as int / 100000000 == (b0 - 0x30) as int);
                    assert(n as int % 100000000 == (a as int) * 10000 + b as int);
                    assert((n as int % 100000000) / 10000 == a as int);
                    assert((n as int % 100000000) % 10000 == b as int);
                    assert(v@.subrange(pos as int, pos as int + 9) =~= d9(n as int));
                    assert forall|m: int|
                        0 <= m <= 999_999_999 && v@.subrange(pos as int, pos as int + 9) == d9(m)
                        implies n == m by {
                        assert(d9(m)[0] == dig(m / 100000000));
                        assert(d9(m).subrange(1, 5) =~= d4((m % 100000000) / 10000));
                        assert(d9(m).subrange(5, 9) =~= d4((m % 100000000) % 10000));
                    }
                }
                Some(n)
            },
            _ => {
                proof {
                    assert forall|m: int|
                        0 <= m <= 999_999_999 && v@.subrange(pos as int, pos as int + 9) == d9(m)
                        implies false by {
                        assert(d9(m).subrange(1, 5) =~= d4((m % 100000000) / 10000));
                        assert(d9(m).subrange(5, 9) =~= d4((m % 100000000) % 10000));
                    }
                }
                None
            },
        }
    } else {
        proof {
            assert forall|m: int|
                0 <= m <= 999_999_999 && v@.subrange(pos as int, pos as int + 9) == d9(m) implies
                false by {
                assert(d9(m)[0] == dig(m / 100000000));
            }
        }
        None
    }
}

/// Parse the strict canonical 30-byte rendering starting at `pos`.
///
/// Returns the timestamp exactly when the window holds `ts_bytes` of a
/// well-formed timestamp, and that timestamp is unique.
pub fn parse_ts(v: &Vec<u8>, pos: usize) -> (r: Option<Timestamp>)
    requires
        pos + 30 <= v.len(),
    ensures
        r matches Some(t) ==> t.wf() && v@.subrange(pos as int, pos as int + 30) == ts_bytes(t),
        forall|t: Timestamp|
            t.wf() && v@.subrange(pos as int, pos as int + 30) == ts_bytes(t) ==> r == Some(t),
{
    let sep_ok = v[pos + 4] == 0x2d && v[pos + 7] == 0x2d && v[pos + 10] == 0x54 && v[pos + 13]
        == 0x3a && v[pos + 16] == 0x3a && v[pos + 19] == 0x2e && v[pos + 29] == 0x5a;
    let year_opt = parse_d4(v, pos);
    let month_opt = parse_d2(v, pos + 5);
    let day_opt = parse_d2(v, pos + 8);
    let hour_opt = parse_d2(v, pos + 11);
    let minute_opt = parse_d2(v, pos + 14);
    let second_opt = parse_d2(v, pos + 17);
    let nanos_opt = parse_d9(v, pos + 20);
    match (year_opt, month_opt, day_opt, hour_opt, minute_opt, second_opt, nanos_opt) {
        (Some(year), Some(month), Some(day), Some(hour), Some(minute), Some(second), Some(nanos)) =>
        {
            if sep_ok && 1 <= month && month <= 12 && 1 <= day && hour <= 23 && minute <= 59
                && second <= 59 && day <= days_in_month(year, month) {
                let t = Timestamp { year, month, day, hour, minute, second, nanos };
                proof {
                    let s = v@;
                    let p = pos as int;
                    assert(s.subrange(p + 4, p + 5) =~= seq![0x2du8]);
                    assert(s.subrange(p + 7, p + 8) =~= seq![0x2du8]);
                    assert(s.subrange(p + 10, p + 11) =~= seq![0x54u8]);
                    assert(s.subrange(p + 13, p + 14) =~= seq![0x3au8]);
                    assert(s.subrange(p + 16, p + 17) =~= seq![0x3au8]);
                    assert(s.subrange(p + 19, p + 20) =~= seq![0x2eu8]);
                    assert(s.subrange(p + 29, p + 30) =~= seq![0x5au8]);
                    lemma_concat_join(s, d4(t.year as int), seq![0x2du8], p);
                    lemma_concat_join(s, d4(t.year as int) + seq![0x2du8], d2(t.month as int), p);
                    lemma_concat_join(
                        s,
                        d4(t.year as int) + seq![0x2du8] + d2(t.month as int),
                        seq![0x2du8],
                        p,
                    );
                    lemma_concat_join(
                        s,
                        d4(t.year as int) + seq![0x2du8] + d2(t.month as int) + seq![0x2du8],
                        d2(t.day as int),
                        p,
                    );
                    lemma_concat_join(
                        s,
                        d4(t.year as int) + seq![0x2du8] + d2(t.month as int) + seq![0x2du8] + d2(
                            t.day as int,
                        ),
                        seq![0x54u8],
                        p,
                    );
                    lemma_concat_join(
                        s,
                        d4(t.year as int) + seq![0x2du8] + d2(t.month as int) + seq![0x2du8] + d2(
                            t.day as int,
                        ) + seq![0x54u8],
                        d2(t.hour as int),
                        p,
                    );
                    lemma_concat_join(
                        s,
                        d4(t.year as int) + seq![0x2du8] + d2(t.month as int) + seq![0x2du8] + d2(
                            t.day as int,
                        ) + seq![0x54u8] + d2(t.hour as int),
                        seq![0x3au8],
                        p,
                    );
                    lemma_concat_join(
                        s,
                        d4(t.year as int) + seq![0x2du8] + d2(t.month as int) + seq![0x2du8] + d2(
                            t.day as int,
                        ) + seq![0x54u8] + d2(t.hour as int) + seq![0x3au8],
                        d2(t.minute as int),
                        p,
                    );
                    lemma_concat_join(
                        s,
                        d4(t.year as int) + seq![0x2du8] + d2(t.month as int) + seq![0x2du8] + d2(
                            t.day as int,
                        ) + seq![0x54u8] + d2(t.hour as int) + seq![0x3au8] + d2(t.minute as int),
                        seq![0x3au8],
                        p,
                    );
                    lemma_concat_join(
                        s,
                        d4(t.year as int) + seq![0x2du8] + d2(t.month as int) + seq![0x2du8] + d2(
                            t.day as int,
                        ) + seq![0x54u8] + d2(t.hour as int) + seq![0x3au8] + d2(t.minute as int)
                            + seq![0x3au8],
                        d2(t.second as int),
                        p,
                    );
                    lemma_concat_join(
                        s,
                        d4(t.year as int) + seq![0x2du8] + d2(t.month as int) + seq![0x2du8] + d2(
                            t.day as int,
                        ) + seq![0x54u8] + d2(t.hour as int) + seq![0x3au8] + d2(t.minute as int)
                            + seq![0x3au8] + d2(t.second as int),
                        seq![0x2eu8],
                        p,
                    );
                    lemma_concat_join(
                        s,
                        d4(t.year as int) + seq![0x2du8] + d2(t.month as int) + seq![0x2du8] + d2(
                            t.day as int,
                        ) + seq![0x54u8] + d2(t.hour as int) + seq![0x3au8] + d2(t.minute as int)
                            + seq![0x3au8] + d2(t.second as int) + seq![0x2eu8],
                        d9(t.nanos as int),
                        p,
                    );
                    lemma_concat_join(
                        s,
                        d4(t.year as int) + seq![0x2du8] + d2(t.month as int) + seq![0x2du8] + d2(
                            t.day as int,
                        ) + seq![0x54u8] + d2(t.hour as int) + seq![0x3au8] + d2(t.minute as int)
                            + seq![0x3au8] + d2(t.second as int) + seq![0x2eu8] + d9(
                            t.nanos as int,
                        ),
                        seq![0x5au8],
                        p,
                    );
                    assert(v@.subrange(pos as int, pos as int + 30) == ts_bytes(t));
                    assert forall|u: Timestamp|
                        u.wf() && v@.subrange(pos as int, pos as int + 30) == ts_bytes(u) implies u
                        == t by {
                        lemma_ts_window(v@, pos as int, u);
                    }
                }
                Some(t)
            } else {
                proof {
                    assert forall|u: Timestamp|
                        u.wf() && v@.subrange(pos as int, pos as int + 30) == ts_bytes(u) implies
                        false by {
                        lemma_ts_window(v@, pos as int, u);
                    }
                }
                None
            }
        },
        _ => {
            proof {
                assert forall|u: Timestamp|
                    u.wf() && v@.subrange(pos as int, pos as int + 30) == ts_bytes(u) implies
                    false by {
                    lemma_ts_window(v@, pos as int, u);
                }
            }
            None
        },
    }
}

/// Splitting: a window of `s` that equals `a + b` decomposes into a window
/// equal to `a` followed by one equal to `b`.
pub proof fn lemma_concat_split(s: Seq<u8>, a: Seq<u8>, b: Seq<u8>, pos: int)
    requires
        0 <= pos,
        pos + a.len() + b.len() <= s.len(),
        s.subrange(pos, pos + a.len() + b.len()) == a + b,
    ensures
        s.subrange(pos, pos + a.len()) == a,
        s.subrange(pos + a.len(), pos + a.len() + b.len()) == b,
{
    let w = s.subrange(pos, pos + a.len() + b.len());
    assert forall|i: int| 0 <= i < a.len() implies s.subrange(pos, pos + a.len())[i] == a[i] by {
        assert(w[i] == (a + b)[i]);
    }
    assert(s.subrange(pos, pos + a.len()) =~= a);
    assert forall|i: int|
        0 <= i < b.len() implies s.subrange(pos + a.len(), pos + a.len() + b.len())[i] == b[i] by {
        assert(w[a.len() + i] == (a + b)[a.len() + i]);
    }
    assert(s.subrange(pos + a.len(), pos + a.len() + b.len()) =~= b);
}

/// Joining: adjacent windows of `s` equal to `a` and to `b` make a window
/// equal to `a + b`.
pub proof fn lemma_concat_join(s: Seq<u8>, a: Seq<u8>, b: Seq<u8>, pos: int)
    requires
        0 <= pos,
        pos + a.len() + b.len() <= s.len(),
        s.subrange(pos, pos + a.len()) == a,
        s.subrange(pos + a.len(), pos + a.len() + b.len()) == b,
    ensures
        s.subrange(pos, pos + a.len() + b.len()) == a + b,
{
    assert forall|i: int|
        0 <= i < a.len() + b.len() implies s.subrange(pos, pos + a.len() + b.len())[i] == (a + b)[i] by {
        if i < a.len() {
            assert(a[i] == s.subrange(pos, pos + a.len())[i]);
        } else {
            assert(b[i - a.len()] == s.subrange(pos + a.len(), pos + a.len() + b.len())[i
                - a.len()]);
        }
    }
    assert(s.subrange(pos, pos + a.len() + b.len()) =~= a + b);
}

/// A 30-byte window that equals `ts_bytes(t)` decomposes into the digit
/// groups and separators of `ts_window_facts`.
pub proof fn lemma_ts_window(s: Seq<u8>, pos: int, t: Timestamp)
    requires
        0 <= pos,
        pos + 30 <= s.len(),
        s.subrange(pos, pos + 30) == ts_bytes(t),
    ensures
        ts_window_facts(s, pos, t),
{
    let p01 = d4(t.year as int);
    let p02 = p01 + seq![0x2du8];
    let p03 = p02 + d2(t.month as int);
    let p04 = p03 + seq![0x2du8];
    let p05 = p04 + d2(t.day as int);
    let p06 = p05 + seq![0x54u8];
    let p07 = p06 + d2(t.hour as int);
    let p08 = p07 + seq![0x3au8];
    let p09 = p08 + d2(t.minute as int);
    let p10 = p09 + seq![0x3au8];
    let p11 = p10 + d2(t.second as int);
    let p12 = p11 + seq![0x2eu8];
    let p13 = p12 + d9(t.nanos as int);
    lemma_concat_split(s, p13, seq![0x5au8], pos);
    lemma_concat_split(s, p12, d9(t.nanos as int), pos);
    lemma_concat_split(s, p11, seq![0x2eu8], pos);
    lemma_concat_split(s, p10, d2(t.second as int), pos);
    lemma_concat_split(s, p09, seq![0x3au8], pos);
    lemma_concat_split(s, p08, d2(t.minute as int), pos);
    lemma_concat_split(s, p07, seq![0x3au8], pos);
    lemma_concat_split(s, p06, d2(t.hour as int), pos);
    lemma_concat_split(s, p05, seq![0x54u8], pos);
    lemma_concat_split(s, p04, d2(t.day as int), pos);
    lemma_concat_split(s, p03, seq![0x2du8], pos);
    lemma_concat_split(s, p02, d2(t.month as int), pos);
    lemma_concat_split(s, p01, seq![0x2du8], pos);
    assert(s[pos + 4] == s.subrange(pos + 4, pos + 5)[0]);
    assert(s[pos + 7] == s.subrange(pos + 7, pos + 8)[0]);
    assert(s[pos + 10] == s.subrange(pos + 10, pos + 11)[0]);
    assert(s[pos + 13] == s.subrange(pos + 13, pos + 14)[0]);
    assert(s[pos + 16] == s.subrange(pos + 16, pos + 17)[0]);
    assert(s[pos + 19] == s.subrange(pos + 19, pos + 20)[0]);
    assert(s[pos + 29] == s.subrange(pos + 29, pos + 30)[0]);
}

proof fn lemma_d2_inj(m: int, n: int)
    requires
        0 <= m <= 99,
        0 <= n <= 99,
        d2(m) == d2(n),
    ensures
        m == n,
{
    assert(d2(m)[0] == dig(m / 10));
    assert(d2(n)[0] == dig(n / 10));
    assert(d2(m)[1] == dig(m % 10));
    assert(d2(n)[1] == dig(n % 10));
}

proof fn lemma_d4_inj(m: int, n: int)
    requires
        0 <= m <= 9999,
        0 <= n <= 9999,
        d4(m) == d4(n),
    ensures
        m == n,
{
    assert(d4(m).subrange(0, 2) =~= d2(m / 100));
    assert(d4(m).subrange(2, 4) =~= d2(m % 100));
    assert(d4(n).subrange(0, 2) =~= d2(n / 100));
    assert(d4(n).subrange(2, 4) =~= d2(n % 100));
    lemma_d2_inj(m / 100, n / 100);
    lemma_d2_inj(m % 100, n % 100);
}

proof fn lemma_d9_inj(m: int, n: int)
    requires
        0 <= m <= 999_999_999,
        0 <= n <= 999_999_999,
        d9(m) == d9(n),
    ensures
        m == n,
{
    assert(d9(m)[0] == dig(m / 100000000));
    assert(d9(n)[0] == dig(n / 100000000));
    assert(d9(m).subrange(1, 5) =~= d4((m % 100000000) / 10000));
    assert(d9(m).subrange(5, 9) =~= d4((m % 100000000) % 10000));
    assert(d9(n).subrange(1, 5) =~= d4((n % 100000000) / 10000));
    assert(d9(n).subrange(5, 9) =~= d4((n % 100000000) % 10000));
    lemma_d4_inj((m % 100000000) / 10000, (n % 100000000) / 10000);
    lemma_d4_inj((m % 100000000) % 10000, (n % 100000000) % 10000);
}

/// Two well-formed timestamps with the same canonical rendering are equal:
/// the rendering pins the timestamp.
#[verifier::rlimit(80)]
pub proof fn lemma_ts_bytes_inj(t1: Timestamp, t2: Timestamp)
    requires
        t1.wf(),
        t2.wf(),
        ts_bytes(t1) == ts_bytes(t2),
    ensures
        t1 == t2,
{
    let s = ts_bytes(t1);
    assert(s.subrange(0, 30) =~= s);
    lemma_ts_window(s, 0, t1);
    lemma_ts_window(s, 0, t2);
    lemma_d4_inj(t1.year as int, t2.year as int);
    lemma_d2_inj(t1.month as int, t2.month as int);
    lemma_d2_inj(t1.day as int, t2.day as int);
    lemma_d2_inj(t1.hour as int, t2.hour as int);
    lemma_d2_inj(t1.minute as int, t2.minute as int);
    lemma_d2_inj(t1.second as int, t2.second as int);
    lemma_d9_inj(t1.nanos as int, t2.nanos as int);
}

/// Relies on chrono's `Utc::now` read through the `Datelike` and `Timelike`
/// accessors: the reading is a valid civil date with the accessors in their
/// calendar ranges; `nanosecond` may reach 1_999_999_999 while chrono
/// represents a leap second.
#[verifier::external_body]
fn utc_now_parts() -> (r: (i32, u8, u8, u8, u8, u8, u32))
    ensures
        1 <= r.1 <= 12,
        1 <= r.2 <= spec_days_in_month(r.0 as int, r.1 as int),
        r.3 <= 23,
        r.4 <= 59,
        r.5 <= 59,
        r.6 <= 1_999_999_999,
{
    let t = chrono::Utc::now();
    (
        chrono::Datelike::year(&t),
        chrono::Datelike::month(&t) as u8,
        chrono::Datelike::day(&t) as u8,
        chrono::Timelike::hour(&t) as u8,
        chrono::Timelike::minute(&t) as u8,
        chrono::Timelike::second(&t) as u8,
        chrono::Timelike::nanosecond(&t),
    )
}

impl Timestamp {
    /// Fold a raw clock reading into a well-formed timestamp. A reading
    /// already inside the well-formed ranges is kept verbatim; the parts of
    /// one outside them (a year beyond 9999, or a leap-second nanosecond
    /// count) are clamped to the nearest representable value.
    pub fn from_clock(year: i32, month: u8, day: u8, hour: u8, minute: u8, second: u8, nanos: u32) -> (t: Timestamp)
        ensures
            t.wf(),
            (0 <= year <= 9999 && 1 <= month <= 12 && 1 <= day <= spec_days_in_month(
                year as int,
                month as int,
            ) && hour <= 23 && minute <= 59 && second <= 59 && nanos <= 999_999_999) ==> t == (
            Timestamp { year: year as u16, month, day, hour, minute, second, nanos }),
    {
        let y: u16 = if year < 0 {
            0
        } else if year > 9999 {
            9999
        } else {
            year as u16
        };
        let mo: u8 = if month < 1 {
            1
        } else if month > 12 {
            12
        } else {
            month
        };
        let dim: u8 = days_in_month(y, mo);
        let dd: u8 = if day < 1 {
            1
        } else if day > dim {
            dim
        } else {
            day
        };
        let h: u8 = if hour > 23 {
            23
        } else {
            hour
        };
        let mi: u8 = if minute > 59 {
            59
        } else {
            minute
        };
        let se: u8 = if second > 59 {
            59
        } else {
            second
        };
        let ns: u32 = if nanos > 999_999_999 {
            999_999_999
        } else {
            nanos
        };
        Timestamp { year: y, month: mo, day: dd, hour: h, minute: mi, second: se, nanos: ns }
    }

    /// Whether this timestamp is well-formed, decided at run time: exactly
    /// what `wf` states.
    pub fn is_wf(&self) -> (b: bool)
        ensures
            b == self.wf(),
    {
        self.year <= 9999 && 1 <= self.month && self.month <= 12 && 1 <= self.day && self.day
            <= days_in_month(self.year, self.month) && self.hour <= 23 && self.minute <= 59
            && self.second <= 59 && self.nanos <= 999_999_999
    }

    /// The current UTC time as a well-formed timestamp.
    pub fn now() -> (t: Timestamp)
        ensures
            t.wf(),
    {
        let p = utc_now_parts();
        Timestamp::from_clock(p.0, p.1, p.2, p.3, p.4, p.5, p.6)
    }
}

/// The digit groups and separators that `ts_bytes(t)` lays into a 30-byte
/// window of `s` starting at `pos`.
pub open spec fn ts_window_facts(s: Seq<u8>, pos: int, t: Timestamp) -> bool {
    &&& s.subrange(pos, pos + 4) == d4(t.year as int)
    &&& s[pos + 4] == 0x2du8
    &&& s.subrange(pos + 5, pos + 7) == d2(t.month as int)
    &&& s[pos + 7] == 0x2du8
    &&& s.subrange(pos + 8, pos + 10) == d2(t.day as int)
    &&& s[pos + 10] == 0x54u8
    &&& s.subrange(pos + 11, pos + 13) == d2(t.hour as int)
    &&& s[pos + 13] == 0x3au8
    &&& s.subrange(pos + 14, pos + 16) == d2(t.minute as int)
    &&& s[pos + 16] == 0x3au8
    &&& s.subrange(pos + 17, pos + 19) == d2(t.second as int)
    &&& s[pos + 19] == 0x2eu8
    &&& s.subrange(pos + 20, pos + 29) == d9(t.nanos as int)
    &&& s[pos + 29] == 0x5au8
}

} // verus!
