use vstd::prelude::*;
use vstd::string::StringSliceAdditionalSpecFns;

verus! {

/// The byte is an ASCII decimal digit.
pub open spec fn is_digit(b: u8) -> bool {
    0x30 <= b <= 0x39
}

/// Every byte of the sequence is a decimal digit.
pub open spec fn all_digits(s: Seq<u8>) -> bool {
    forall|i: int| 0 <= i < s.len() ==> is_digit(#[trigger] s[i])
}

/// The number the digit bytes spell out.
pub open spec fn digits_val(s: Seq<u8>) -> int
    decreases s.len(),
{
    if s.len() == 0 {
        0
    } else {
        digits_val(s.drop_last()) * 10 + (s.last() - 0x30)
    }
}

/// A digit sequence spells a non-negative number.
pub proof fn lemma_digits_val_nonneg(s: Seq<u8>)
    requires
        all_digits(s),
    ensures
        digits_val(s) >= 0,
    decreases s.len(),
{
    if s.len() > 0 {
        assert(all_digits(s.drop_last()));
        lemma_digits_val_nonneg(s.drop_last());
    }
}

/// Dropping digits from the right never grows the number spelt.
pub proof fn lemma_digits_val_prefix(s: Seq<u8>, k: int)
    requires
        all_digits(s),
        0 <= k <= s.len(),
    ensures
        digits_val(s.subrange(0, k)) <= digits_val(s),
    decreases s.len() - k,
{
    if k == s.len() {
        assert(s.subrange(0, k) =~= s);
    } else {
        lemma_digits_val_prefix(s, k + 1);
        let p = s.subrange(0, k + 1);
        assert(p.drop_last() =~= s.subrange(0, k));
        assert(all_digits(p.drop_last()));
        lemma_digits_val_nonneg(p.drop_last());
        assert(digits_val(p) == digits_val(s.subrange(0, k)) * 10 + (p.last() - 0x30));
    }
}

/// What an unsigned decimal literal parses to: an optional leading plus
/// sign, then at least one digit, spelling a number that fits.
pub open spec fn spec_parse_u32(s: Seq<u8>) -> Option<u32> {
    let digits = if s.len() > 0 && s[0] == 0x2b {
        s.subrange(1, s.len() as int)
    } else {
        s
    };
    if digits.len() > 0 && all_digits(digits) && digits_val(digits) <= u32::MAX {
        Some(digits_val(digits) as u32)
    } else {
        None
    }
}

/// Index of the first range separator byte, or the length when none occurs.
pub open spec fn dash_index(s: Seq<u8>) -> int
    decreases s.len(),
{
    if s.len() == 0 {
        0
    } else if s[0] == 0x2d {
        0
    } else {
        1 + dash_index(s.subrange(1, s.len() as int))
    }
}

/// The first-separator index is the first index holding the separator.
pub proof fn lemma_dash_index(s: Seq<u8>)
    ensures
        0 <= dash_index(s) <= s.len(),
        dash_index(s) < s.len() ==> s[dash_index(s)] == 0x2d,
        forall|j: int| 0 <= j < dash_index(s) ==> #[trigger] s[j] != 0x2d,
    decreases s.len(),
{
    if s.len() > 0 && s[0] != 0x2d {
        let t = s.subrange(1, s.len() as int);
        lemma_dash_index(t);
        assert forall|j: int| 0 <= j < dash_index(s) implies #[trigger] s[j] != 0x2d by {
            if j > 0 {
                assert(t[j - 1] == s[j]);
            }
        }
    }
}

/// What a range expression parses to: a number, one separator, a number,
/// standing for the inclusive span from the first to the second; the result
/// pairs the start with the end plus one.
pub open spec fn spec_parse_range(s: Seq<u8>) -> Option<(u32, u32)> {
    let i = dash_index(s);
    if i == s.len() {
        None
    } else {
        let a = spec_parse_u32(s.subrange(0, i));
        let b = spec_parse_u32(s.subrange(i + 1, s.len() as int));
        if a is Some && b is Some && b.unwrap() < u32::MAX {
            Some((a.unwrap(), (b.unwrap() + 1) as u32))
        } else {
            None
        }
    }
}

/// Parse an unsigned decimal literal from a byte span.
fn parse_u32_part(b: &[u8], from: usize, to: usize) -> (r: Result<u32, ()>)
    requires
        from <= to <= b@.len(),
    ensures
        r is Ok <==> spec_parse_u32(b@.subrange(from as int, to as int)) is Some,
        r is Ok ==> Some(r.unwrap()) == spec_parse_u32(b@.subrange(from as int, to as int)),
{
    let ghost whole = b@.subrange(from as int, to as int);
    let mut i = from;
    if i < to && b[i] == 0x2b {
        i = i + 1;
    }
    let ghost digs = b@.subrange(i as int, to as int);
    proof {
        if from < to && b@[from as int] == 0x2b {
            assert(digs =~= whole.subrange(1, whole.len() as int));
        } else {
            assert(digs =~= whole);
        }
    }
    if i == to {
        return Err(());
    }
    let mut acc: u32 = 0;
    let mut j = i;
    while j < to
        invariant
            from <= i < to <= b@.len(),
            i <= j <= to,
            whole == b@.subrange(from as int, to as int),
            digs == b@.subrange(i as int, to as int),
            digs == (if whole.len() > 0 && whole[0] == 0x2b {
                whole.subrange(1, whole.len() as int)
            } else {
                whole
            }),
            digs.len() > 0,
            all_digits(b@.subrange(i as int, j as int)),
            acc == digits_val(b@.subrange(i as int, j as int)),
        decreases to - j,
    {
        let d = b[j];
        proof {
            assert(b@.subrange(i as int, j + 1).drop_last() =~= b@.subrange(i as int, j as int));
            assert(b@.subrange(i as int, j + 1).last() == b@[j as int]);
        }
        if d < 0x30 || d > 0x39 {
            proof {
                assert(digs[j - i] == d);
            }
            return Err(());
        }
        let dv = d - 0x30;
        if acc > (u32::MAX - dv as u32) / 10 {
            proof {
                vstd::arithmetic::div_mod::lemma_fundamental_div_mod(
                    (u32::MAX - dv) as int,
                    10,
                );
                vstd::arithmetic::div_mod::lemma_mod_bound((u32::MAX - dv) as int, 10);
                assert(digits_val(b@.subrange(i as int, j + 1)) > u32::MAX);
                if all_digits(digs) {
                    lemma_digits_val_prefix(digs, j + 1 - i);
                    assert(digs.subrange(0, j + 1 - i) =~= b@.subrange(i as int, j + 1));
                }
            }
            return Err(());
        }
        acc = acc * 10 + dv as u32;
        j = j + 1;
    }
    proof {
        assert(b@.subrange(i as int, j as int) =~= digs);
    }
    Ok(acc)
}

/// Parse a string of the form `"<start>-<end>"` as the inclusive range from
/// `start` to `end`, returned as the pair `(start, end + 1)`; anything else
/// is rejected.
pub fn parse_range(s: &str) -> (r: Result<(u32, u32), ()>)
    ensures
        r is Ok <==> spec_parse_range(s.spec_bytes()) is Some,
        r is Ok ==> Some(r.unwrap()) == spec_parse_range(s.spec_bytes()),
{
    let b = s.as_bytes();
    let n = b.len();
    let mut i: usize = 0;
    while i < n && b[i] != 0x2d
        invariant
            i <= n == b@.len(),
            forall|j: int| 0 <= j < i ==> b@[j] != 0x2d,
        decreases n - i,
    {
        i = i + 1;
    }
    proof {
        lemma_dash_index(b@);
        if i < n {
            assert(i == dash_index(b@)) by {
                if dash_index(b@) < i {
                    assert(b@[dash_index(b@)] != 0x2d);
                }
            }
        } else {
            assert(dash_index(b@) == b@.len()) by {
                if dash_index(b@) < b@.len() {
                    assert(b@[dash_index(b@)] == 0x2d);
                }
            }
        }
    }
    if i == n {
        return Err(());
    }
    let a = match parse_u32_part(b, 0, i) {
        Ok(v) => v,
        Err(()) => {
            return Err(());
        },
    };
    let e = match parse_u32_part(b, i + 1, n) {
        Ok(v) => v,
        Err(()) => {
            return Err(());
        },
    };
    if e == u32::MAX {
        return Err(());
    }
    Ok((a, e + 1))
}

} // verus!
