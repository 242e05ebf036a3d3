//! Display-timestamp synthesis for flight-log statistics: a record's
//! calendar fields are rendered as `<year>-<month>-<day> <time-of-day>`, the
//! month and day zero-padded to two characters.

use vstd::prelude::*;

use crate::text::append_bytes;

verus! {

/// The decimal digits of `n`, most significant first.
pub open spec fn dec_of(n: nat) -> Seq<u8>
    decreases n,
{
    if n < 10 {
        seq![(48 + n) as u8]
    } else {
        dec_of(n / 10).push((48 + n % 10) as u8)
    }
}

/// The decimal rendering of a possibly negative integer.
pub open spec fn int_dec(n: int) -> Seq<u8> {
    if n < 0 {
        seq![45u8] + dec_of((-n) as nat)
    } else {
        dec_of(n as nat)
    }
}

/// The rendering of a value zero-padded to width two: a single digit gains a
/// leading zero; anything else (including negative values) is unchanged.
pub open spec fn pad2(n: int) -> Seq<u8> {
    if 0 <= n <= 9 {
        seq![48u8] + dec_of(n as nat)
    } else {
        int_dec(n)
    }
}

/// The synthesized display timestamp of a flight-log record.
pub open spec fn timestamp_spec(year: int, month: int, day: int, time: Seq<u8>) -> Seq<u8> {
    int_dec(year) + seq![45u8] + pad2(month) + seq![45u8] + pad2(day) + seq![32u8] + time
}

spec fn rev_bytes(s: Seq<u8>) -> Seq<u8>
    decreases s.len(),
{
    if s.len() == 0 {
        Seq::empty()
    } else {
        seq![s.last()] + rev_bytes(s.drop_last())
    }
}

/// Render an unsigned value in decimal.
pub fn u64_to_dec(n: u64) -> (r: Vec<u8>)
    ensures
        r@ == dec_of(n as nat),
{
    let mut buf: Vec<u8> = Vec::new();
    let mut m: u64 = n;
    proof {
        assert(rev_bytes(buf@) =~= Seq::<u8>::empty());
        assert(dec_of(m as nat) + rev_bytes(buf@) =~= dec_of(n as nat));
    }
    while m >= 10
        invariant
            dec_of(n as nat) == dec_of(m as nat) + rev_bytes(buf@),
        decreases m,
    {
        let d: u8 = (m % 10) as u8 + 48;
        let ghost buf0 = buf@;
        buf.push(d);
        proof {
            assert(buf@.drop_last() =~= buf0);
            assert(rev_bytes(buf@) == seq![d] + rev_bytes(buf0));
            assert(dec_of(m as nat) == dec_of((m as nat) / 10).push(d));
            assert(dec_of((m as nat) / 10).push(d) =~= dec_of((m as nat) / 10) + seq![d]);
            assert((dec_of((m as nat) / 10) + seq![d]) + rev_bytes(buf0) =~= dec_of(
                (m as nat) / 10,
            ) + (seq![d] + rev_bytes(buf0)));
            assert((m / 10) as nat == (m as nat) / 10);
        }
        m = m / 10;
    }
    let ghost buf1 = buf@;
    buf.push((m as u8) + 48);
    proof {
        assert(buf@.drop_last() =~= buf1);
        assert(rev_bytes(buf@) == seq![(48 + m as nat) as u8] + rev_bytes(buf1));
        assert(dec_of(m as nat) =~= seq![(48 + m as nat) as u8]);
        assert(seq![(48 + m as nat) as u8] + rev_bytes(buf1) =~= dec_of(m as nat) + rev_bytes(
            buf1,
        ));
        assert(dec_of(n as nat) == rev_bytes(buf@));
    }
    let mut r: Vec<u8> = Vec::new();
    proof {
        assert(r@ + rev_bytes(buf@) =~= rev_bytes(buf@));
    }
    while buf.len() > 0
        invariant
            r@ + rev_bytes(buf@) == dec_of(n as nat),
        decreases buf@.len(),
    {
        let ghost bpre = buf@;
        match buf.pop() {
            Some(d) => {
                let ghost rpre = r@;
                r.push(d);
                proof {
                    assert(d == bpre.last());
                    assert(buf@ =~= bpre.drop_last());
                    assert(rev_bytes(bpre) == seq![d] + rev_bytes(buf@));
                    assert(rpre + (seq![d] + rev_bytes(buf@)) =~= r@ + rev_bytes(buf@));
                }
            },
            None => {
                proof {
                    assert(false);
                }
            },
        }
    }
    proof {
        assert(rev_bytes(buf@) =~= Seq::<u8>::empty());
        assert(r@ + rev_bytes(buf@) =~= r@);
    }
    r
}

/// Render a signed value in decimal.
pub fn i32_to_dec(n: i32) -> (r: Vec<u8>)
    ensures
        r@ == int_dec(n as int),
{
    if n < 0 {
        let mag: u64 = (-(n as i64)) as u64;
        proof {
            assert(mag as nat == (-(n as int)) as nat);
        }
        let digits = u64_to_dec(mag);
        let mut r: Vec<u8> = Vec::new();
        r.push(45);
        proof {
            assert(r@ =~= seq![45u8]);
        }
        append_bytes(&mut r, &digits);
        r
    } else {
        u64_to_dec(n as u64)
    }
}

/// Render a value zero-padded to width two.
pub fn pad2_render(n: i32) -> (r: Vec<u8>)
    ensures
        r@ == pad2(n as int),
{
    if 0 <= n && n <= 9 {
        let mut r: Vec<u8> = Vec::new();
        r.push(48);
        r.push(48 + n as u8);
        proof {
            assert(dec_of(n as nat) =~= seq![(48 + n as nat) as u8]);
            assert(r@ =~= seq![48u8] + dec_of(n as nat));
        }
        r
    } else {
        i32_to_dec(n)
    }
}

/// Synthesize the display timestamp of a flight-log record from its calendar
/// date parts and its time-of-day text.
pub fn format_timestamp(year: i32, month: i32, day: i32, time: &Vec<u8>) -> (r: Vec<u8>)
    ensures
        r@ == timestamp_spec(year as int, month as int, day as int, time@),
{
    let mut r = i32_to_dec(year);
    r.push(45);
    let mon = pad2_render(month);
    append_bytes(&mut r, &mon);
    r.push(45);
    let d = pad2_render(day);
    append_bytes(&mut r, &d);
    r.push(32);
    append_bytes(&mut r, time);
    proof {
        assert(r@ =~= timestamp_spec(year as int, month as int, day as int, time@));
    }
    r
}

} // verus!
