//! Byte-level text utilities: ASCII whitespace trimming, separator splitting,
//! and decimal parsing of unsigned integers, each proved against a direct
//! mathematical description.

use vstd::prelude::*;

verus! {

/// ASCII whitespace: space, tab, line feed, vertical tab, form feed,
/// carriage return.
pub open spec fn is_ascii_ws(b: u8) -> bool {
    b == 32 || (9 <= b && b <= 13)
}

/// The sequence with its leading ASCII whitespace removed.
pub open spec fn trim_start_spec(s: Seq<u8>) -> Seq<u8>
    decreases s.len(),
{
    if s.len() > 0 && is_ascii_ws(s[0]) {
        trim_start_spec(s.drop_first())
    } else {
        s
    }
}

/// The sequence with its trailing ASCII whitespace removed.
pub open spec fn trim_end_spec(s: Seq<u8>) -> Seq<u8>
    decreases s.len(),
{
    if s.len() > 0 && is_ascii_ws(s[s.len() - 1]) {
        trim_end_spec(s.drop_last())
    } else {
        s
    }
}

/// The sequence with leading and trailing ASCII whitespace removed.
pub open spec fn trim_spec(s: Seq<u8>) -> Seq<u8> {
    trim_end_spec(trim_start_spec(s))
}

pub open spec fn is_ascii_digit(b: u8) -> bool {
    48 <= b && b <= 57
}

pub open spec fn all_digits(s: Seq<u8>) -> bool {
    forall|i: int| 0 <= i < s.len() ==> is_ascii_digit(s[i])
}

/// The value of a string of decimal digits, most significant first.
pub open spec fn dec_value(s: Seq<u8>) -> nat
    decreases s.len(),
{
    if s.len() == 0 {
        0
    } else {
        dec_value(s.drop_last()) * 10 + (s.last() - 48) as nat
    }
}

/// What `str::parse::<u32>` accepts: an optional leading `+`, then at least
/// one decimal digit, with a value that fits in the type.
pub open spec fn parse_u32_spec(s: Seq<u8>) -> Option<u32> {
    let digits = if s.len() > 0 && s[0] == 43 {
        s.drop_first()
    } else {
        s
    };
    if digits.len() > 0 && all_digits(digits) && dec_value(digits) <= u32::MAX {
        Some(dec_value(digits) as u32)
    } else {
        None
    }
}

/// The parsed value, or the documented zero default when the text is not a
/// well-formed `u32`.
pub open spec fn parse_u32_or_zero(s: Seq<u8>) -> u32 {
    match parse_u32_spec(s) {
        Some(v) => v,
        None => 0,
    }
}

/// A digit-string prefix never exceeds the value of the whole string.
pub proof fn lemma_dec_value_prefix(s: Seq<u8>, i: int)
    requires
        0 <= i <= s.len(),
        all_digits(s),
    ensures
        dec_value(s.subrange(0, i)) <= dec_value(s),
    decreases s.len() - i,
{
    if i == s.len() {
        assert(s.subrange(0, i) =~= s);
    } else {
        lemma_dec_value_prefix(s, i + 1);
        let p = s.subrange(0, i);
        let p2 = s.subrange(0, i + 1);
        assert(p2.drop_last() =~= p);
        assert(dec_value(p2) == dec_value(p) * 10 + (s[i] - 48) as nat);
    }
}

/// Parse a decimal `u32`, substituting 0 when the text is malformed or out
/// of range.
pub fn parse_u32_default(s: &Vec<u8>) -> (r: u32)
    ensures
        r == parse_u32_or_zero(s@),
{
    let start: usize = if s.len() > 0 && s[0] == 43 {
        1
    } else {
        0
    };
    let ghost digits = if s@.len() > 0 && s@[0] == 43 {
        s@.drop_first()
    } else {
        s@
    };
    proof {
        assert(digits =~= s@.subrange(start as int, s@.len() as int));
    }
    if s.len() == start {
        return 0;
    }
    let mut acc: u64 = 0;
    let mut i: usize = start;
    proof {
        assert(digits.subrange(0, 0) =~= Seq::<u8>::empty());
    }
    while i < s.len()
        invariant
            start <= i <= s@.len(),
            start < s@.len(),
            digits == s@.subrange(start as int, s@.len() as int),
            digits == (if s@.len() > 0 && s@[0] == 43 {
                s@.drop_first()
            } else {
                s@
            }),
            all_digits(digits.subrange(0, i - start)),
            acc == dec_value(digits.subrange(0, i - start)),
            acc <= u32::MAX,
        decreases s@.len() - i,
    {
        let b = s[i];
        if !(48 <= b && b <= 57) {
            proof {
                assert(digits[i - start] == b);
                assert(!all_digits(digits));
                assert(parse_u32_spec(s@) == None::<u32>);
                assert(parse_u32_or_zero(s@) == 0);
            }
            return 0;
        }
        let d: u64 = (b - 48) as u64;
        acc = acc * 10 + d;
        proof {
            let p = digits.subrange(0, i - start);
            let p2 = digits.subrange(0, i + 1 - start);
            assert(p2.drop_last() =~= p);
            assert(p2.last() == b);
        }
        if acc > (u32::MAX as u64) {
            proof {
                if all_digits(digits) {
                    lemma_dec_value_prefix(digits, i + 1 - start);
                    assert(dec_value(digits) > u32::MAX);
                }
            }
            return 0;
        }
        i = i + 1;
    }
    proof {
        assert(digits.subrange(0, s@.len() - start) =~= digits);
        assert(digits.len() > 0);
    }
    acc as u32
}

pub fn is_ws(b: u8) -> (r: bool)
    ensures
        r == is_ascii_ws(b),
{
    b == 32 || (9 <= b && b <= 13)
}

/// Copy of `s[from..to]`.
pub fn copy_range(s: &Vec<u8>, from: usize, to: usize) -> (r: Vec<u8>)
    requires
        from <= to <= s@.len(),
    ensures
        r@ == s@.subrange(from as int, to as int),
{
    let mut r: Vec<u8> = Vec::new();
    let mut i: usize = from;
    while i < to
        invariant
            from <= i <= to <= s@.len(),
            r@ == s@.subrange(from as int, i as int),
        decreases to - i,
    {
        r.push(s[i]);
        proof {
            assert(r@ =~= s@.subrange(from as int, (i + 1) as int));
        }
        i = i + 1;
    }
    r
}

/// How many times a byte occurs in a string.
pub open spec fn count_byte(s: Seq<u8>, x: u8) -> nat
    decreases s.len(),
{
    if s.len() == 0 {
        0
    } else {
        count_byte(s.drop_first(), x) + if s[0] == x {
            1nat
        } else {
            0nat
        }
    }
}

pub proof fn lemma_count_byte_concat(a: Seq<u8>, b: Seq<u8>, x: u8)
    ensures
        count_byte(a + b, x) == count_byte(a, x) + count_byte(b, x),
    decreases a.len(),
{
    if a.len() == 0 {
        assert(a + b =~= b);
    } else {
        assert((a + b).drop_first() =~= a.drop_first() + b);
        assert((a + b)[0] == a[0]);
        lemma_count_byte_concat(a.drop_first(), b, x);
    }
}

pub proof fn lemma_count_byte_zero(s: Seq<u8>, x: u8)
    requires
        forall|i: int| 0 <= i < s.len() ==> s[i] != x,
    ensures
        count_byte(s, x) == 0,
    decreases s.len(),
{
    if s.len() > 0 {
        lemma_count_byte_zero(s.drop_first(), x);
    }
}

pub proof fn lemma_count_byte_le_len(s: Seq<u8>, x: u8)
    ensures
        count_byte(s, x) <= s.len(),
    decreases s.len(),
{
    if s.len() > 0 {
        lemma_count_byte_le_len(s.drop_first(), x);
    }
}

/// Split a byte string on a separator byte. The result always has one part
/// more than the string has separators; an empty string yields one empty
/// part, exactly as `str::split` does.
pub open spec fn split_on(s: Seq<u8>, sep: u8) -> Seq<Seq<u8>>
    decreases s.len(),
{
    if s.len() == 0 {
        seq![Seq::<u8>::empty()]
    } else if s[0] == sep {
        seq![Seq::<u8>::empty()] + split_on(s.drop_first(), sep)
    } else {
        let rest = split_on(s.drop_first(), sep);
        seq![seq![s[0]] + rest[0]] + rest.drop_first()
    }
}

/// The views of a sequence of byte vectors.
pub open spec fn views_of(s: Seq<Vec<u8>>) -> Seq<Seq<u8>> {
    s.map_values(|v: Vec<u8>| v@)
}

pub proof fn lemma_split_on_len(s: Seq<u8>, sep: u8)
    ensures
        split_on(s, sep).len() >= 1,
    decreases s.len(),
{
    if s.len() > 0 {
        lemma_split_on_len(s.drop_first(), sep);
    }
}

/// A string without the separator is a single part.
pub proof fn lemma_split_on_no_sep(s: Seq<u8>, sep: u8)
    requires
        forall|j: int| 0 <= j < s.len() ==> s[j] != sep,
    ensures
        split_on(s, sep) == seq![s],
    decreases s.len(),
{
    if s.len() == 0 {
        assert(s =~= Seq::<u8>::empty());
        assert(split_on(s, sep) =~~= seq![s]);
    } else {
        lemma_split_on_no_sep(s.drop_first(), sep);
        let rest = split_on(s.drop_first(), sep);
        assert(rest == seq![s.drop_first()]);
        assert(seq![s[0]] + rest[0] =~= s);
        assert(rest.drop_first() =~= Seq::<Seq<u8>>::empty());
        assert(split_on(s, sep) =~= seq![s]);
    }
}

/// A split with a single part is the whole string (no separator occurred).
pub proof fn lemma_split_on_single(s: Seq<u8>, sep: u8)
    requires
        split_on(s, sep).len() == 1,
    ensures
        split_on(s, sep)[0] == s,
    decreases s.len(),
{
    if s.len() == 0 {
        assert(split_on(s, sep)[0] =~= s);
    } else if s[0] == sep {
        lemma_split_on_len(s.drop_first(), sep);
        assert(false);
    } else {
        let rest = split_on(s.drop_first(), sep);
        lemma_split_on_len(s.drop_first(), sep);
        assert(rest.drop_first().len() == 0);
        lemma_split_on_single(s.drop_first(), sep);
        assert(split_on(s, sep)[0] == seq![s[0]] + s.drop_first());
        assert(seq![s[0]] + s.drop_first() =~= s);
    }
}

/// Splitting a concatenation: all the parts of `u` but its last, then the
/// split of `u`'s last (unterminated) part joined onto `v`.
pub proof fn lemma_split_on_concat(u: Seq<u8>, v: Seq<u8>, sep: u8)
    ensures
        split_on(u + v, sep) == split_on(u, sep).drop_last() + split_on(
            split_on(u, sep).last() + v,
            sep,
        ),
    decreases u.len(),
{
    if u.len() == 0 {
        assert(u + v =~= v);
        assert(split_on(u, sep).last() + v =~= v);
        assert(split_on(u, sep).drop_last() + split_on(v, sep) =~= split_on(v, sep));
    } else {
        let u2 = u.drop_first();
        assert((u + v).drop_first() =~= u2 + v);
        assert((u + v)[0] == u[0]);
        lemma_split_on_concat(u2, v, sep);
        lemma_split_on_len(u2, sep);
        let r = split_on(u2 + v, sep);
        let su2 = split_on(u2, sep);
        let a = su2.drop_last();
        let b = split_on(su2.last() + v, sep);
        lemma_split_on_len(su2.last() + v, sep);
        if u[0] == sep {
            assert(split_on(u, sep) == seq![Seq::<u8>::empty()] + su2);
            assert(split_on(u + v, sep) == seq![Seq::<u8>::empty()] + r);
            assert(split_on(u, sep).drop_last() =~= seq![Seq::<u8>::empty()] + a);
            assert(split_on(u, sep).last() == su2.last());
            assert(seq![Seq::<u8>::empty()] + (a + b) =~= (seq![Seq::<u8>::empty()] + a) + b);
        } else {
            assert(split_on(u, sep) == seq![seq![u[0]] + su2[0]] + su2.drop_first());
            assert(split_on(u + v, sep) == seq![seq![u[0]] + r[0]] + r.drop_first());
            if a.len() > 0 {
                assert(r[0] == a[0] && a[0] == su2[0]);
                assert(r.drop_first() =~= a.drop_first() + b);
                assert(su2.drop_first().len() >= 1);
                assert(split_on(u, sep).drop_last() =~= seq![seq![u[0]] + su2[0]]
                    + su2.drop_first().drop_last());
                assert(split_on(u, sep).last() == su2.last());
                assert(a.drop_first() =~= su2.drop_first().drop_last());
                assert(seq![seq![u[0]] + su2[0]] + (a.drop_first() + b) =~= (seq![
                    seq![u[0]] + su2[0],
                ] + su2.drop_first().drop_last()) + b);
            } else {
                // The first byte's part swallows all of u2: u2 had no separator.
                assert(su2.len() == 1);
                lemma_split_on_single(u2, sep);
                assert(su2.last() == u2);
                assert(r =~= b);
                assert(su2.drop_first() =~= Seq::<Seq<u8>>::empty());
                assert(split_on(u, sep) =~= seq![seq![u[0]] + u2]);
                assert(split_on(u, sep).drop_last() =~= Seq::<Seq<u8>>::empty());
                assert(split_on(u, sep).last() == seq![u[0]] + u2);
                assert((seq![u[0]] + u2) + v =~= u + v);
                assert(split_on(u, sep).drop_last() + split_on(
                    split_on(u, sep).last() + v,
                    sep,
                ) =~= split_on(u + v, sep));
            }
        }
    }
}

/// Splitting at the first separator: the part before it, then the split of
/// what follows it.
pub proof fn lemma_split_on_first(s: Seq<u8>, sep: u8, i: int)
    requires
        0 <= i < s.len(),
        s[i] == sep,
        forall|j: int| 0 <= j < i ==> s[j] != sep,
    ensures
        split_on(s, sep) == seq![s.subrange(0, i)] + split_on(
            s.subrange(i + 1, s.len() as int),
            sep,
        ),
    decreases i,
{
    if i == 0 {
        assert(s.subrange(0, 0) =~= Seq::<u8>::empty());
        assert(s.drop_first() =~= s.subrange(1, s.len() as int));
    } else {
        let t = s.drop_first();
        assert(forall|j: int| 0 <= j < i - 1 ==> t[j] != sep);
        lemma_split_on_first(t, sep, i - 1);
        let rest = split_on(t, sep);
        assert(rest == seq![t.subrange(0, i - 1)] + split_on(
            t.subrange(i, t.len() as int),
            sep,
        ));
        assert(seq![s[0]] + rest[0] =~= s.subrange(0, i));
        assert(rest.drop_first() =~= split_on(t.subrange(i, t.len() as int), sep));
        assert(t.subrange(i, t.len() as int) =~= s.subrange(i + 1, s.len() as int));
        assert(split_on(s, sep) =~= seq![s.subrange(0, i)] + split_on(
            s.subrange(i + 1, s.len() as int),
            sep,
        ));
    }
}

/// Split a byte string on a separator byte.
pub fn split_bytes(s: &Vec<u8>, sep: u8) -> (r: Vec<Vec<u8>>)
    ensures
        views_of(r@) == split_on(s@, sep),
{
    let mut r: Vec<Vec<u8>> = Vec::new();
    let mut pos: usize = 0;
    let mut done: bool = false;
    proof {
        assert(s@.subrange(0, s@.len() as int) =~= s@);
        assert(views_of(r@) =~= Seq::<Seq<u8>>::empty());
    }
    while !done
        invariant
            done ==> views_of(r@) == split_on(s@, sep),
            !done ==> pos <= s@.len() && split_on(s@, sep) == views_of(r@) + split_on(
                s@.subrange(pos as int, s@.len() as int),
                sep,
            ),
        decreases s@.len() - pos + if done {
            0int
        } else {
            1int
        },
    {
        let mut j: usize = pos;
        while j < s.len() && s[j] != sep
            invariant
                pos <= j <= s@.len(),
                forall|k: int| pos <= k < j ==> s@[k] != sep,
            decreases s@.len() - j,
        {
            j = j + 1;
        }
        let ghost suffix = s@.subrange(pos as int, s@.len() as int);
        if j < s.len() {
            // s[j] is the first separator at or after pos.
            let field = copy_range(s, pos, j);
            proof {
                let fi = j - pos;
                assert(suffix[fi] == sep);
                assert(forall|k: int| 0 <= k < fi ==> suffix[k] != sep);
                lemma_split_on_first(suffix, sep, fi);
                assert(suffix.subrange(0, fi) =~= field@);
                assert(suffix.subrange(fi + 1, suffix.len() as int) =~= s@.subrange(
                    (j + 1) as int,
                    s@.len() as int,
                ));
            }
            let ghost old_r = r@;
            r.push(field);
            proof {
                assert(views_of(r@) =~= views_of(old_r).push(field@));
                assert(views_of(old_r) + (seq![field@] + split_on(
                    s@.subrange((j + 1) as int, s@.len() as int),
                    sep,
                )) =~= views_of(r@) + split_on(
                    s@.subrange((j + 1) as int, s@.len() as int),
                    sep,
                ));
            }
            pos = j + 1;
        } else {
            // No separator remains: the rest is the final part.
            let field = copy_range(s, pos, s.len());
            proof {
                assert(suffix =~= field@);
                assert(forall|k: int| 0 <= k < suffix.len() ==> suffix[k] != sep);
                lemma_split_on_no_sep(suffix, sep);
            }
            let ghost old_r = r@;
            r.push(field);
            proof {
                assert(views_of(r@) =~= views_of(old_r).push(field@));
                assert(views_of(old_r) + seq![field@] =~= views_of(r@));
            }
            done = true;
        }
    }
    r
}

/// Append a copy of `src` to `dst`.
pub fn append_bytes(dst: &mut Vec<u8>, src: &Vec<u8>)
    ensures
        final(dst)@ == old(dst)@ + src@,
{
    proof {
        assert(old(dst)@ + src@.subrange(0, 0) =~= old(dst)@);
    }
    let mut i: usize = 0;
    while i < src.len()
        invariant
            i <= src@.len(),
            dst@ == old(dst)@ + src@.subrange(0, i as int),
        decreases src@.len() - i,
    {
        dst.push(src[i]);
        proof {
            assert(old(dst)@ + src@.subrange(0, i + 1) =~= (old(dst)@ + src@.subrange(
                0,
                i as int,
            )).push(src@[i as int]));
        }
        i = i + 1;
    }
    proof {
        assert(src@.subrange(0, src@.len() as int) =~= src@);
    }
}

/// Remove leading and trailing ASCII whitespace from a byte string.
pub fn trim_bytes(s: &Vec<u8>) -> (r: Vec<u8>)
    ensures
        r@ == trim_spec(s@),
{
    proof {
        assert(s@.subrange(0, s@.len() as int) =~= s@);
    }
    let mut lo: usize = 0;
    while lo < s.len() && is_ws(s[lo])
        invariant
            0 <= lo <= s@.len(),
            trim_start_spec(s@) == trim_start_spec(s@.subrange(lo as int, s@.len() as int)),
        decreases s@.len() - lo,
    {
        proof {
            let t = s@.subrange(lo as int, s@.len() as int);
            assert(t.drop_first() =~= s@.subrange((lo + 1) as int, s@.len() as int));
        }
        lo = lo + 1;
    }
    proof {
        assert(s@.subrange(0, s@.len() as int) =~= s@);
        let t = s@.subrange(lo as int, s@.len() as int);
        assert(trim_start_spec(t) == t);
    }
    // Here trim_start_spec(s@) == s@.subrange(lo, len).
    let mut hi: usize = s.len();
    while hi > lo && is_ws(s[hi - 1])
        invariant
            lo <= hi <= s@.len(),
            trim_start_spec(s@) == s@.subrange(lo as int, s@.len() as int),
            trim_end_spec(trim_start_spec(s@)) == trim_end_spec(
                s@.subrange(lo as int, hi as int),
            ),
        decreases hi,
    {
        proof {
            let t = s@.subrange(lo as int, hi as int);
            assert(t.drop_last() =~= s@.subrange(lo as int, (hi - 1) as int));
        }
        hi = hi - 1;
    }
    proof {
        let t = s@.subrange(lo as int, hi as int);
        assert(trim_end_spec(t) == t);
    }
    copy_range(s, lo, hi)
}

} // verus!
