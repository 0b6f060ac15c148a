use vstd::prelude::*;

verus! {

/// ASCII digit of a value below ten.
pub open spec fn digit_byte(d: nat) -> u8 {
    (48 + d) as u8
}

pub open spec fn is_digit(b: u8) -> bool {
    48 <= b <= 57
}

/// The shortest decimal notation of `n`, as ASCII bytes.
pub open spec fn digits_of(n: nat) -> Seq<u8>
    decreases n,
{
    if n < 10 {
        seq![digit_byte(n)]
    } else {
        digits_of(n / 10).push(digit_byte(n % 10))
    }
}

/// The value of a string of decimal digits.
pub open spec fn value_of(d: Seq<u8>) -> int
    decreases d.len(),
{
    if d.len() == 0 {
        0
    } else {
        value_of(d.drop_last()) * 10 + (d.last() - 48)
    }
}

pub open spec fn all_digits(d: Seq<u8>) -> bool {
    forall|i: int| 0 <= i < d.len() ==> is_digit(#[trigger] d[i])
}

/// What `parse_decimal` accepts: a non-empty run of digits whose value fits in a `u32`.
pub open spec fn parse_spec(d: Seq<u8>) -> Option<u32> {
    if d.len() > 0 && all_digits(d) && value_of(d) <= u32::MAX {
        Some(value_of(d) as u32)
    } else {
        None
    }
}

pub proof fn lemma_digits_of(n: nat)
    ensures
        all_digits(digits_of(n)),
        digits_of(n).len() > 0,
        value_of(digits_of(n)) == n,
    decreases n,
{
    if n >= 10 {
        lemma_digits_of(n / 10);
        let d = digits_of(n);
        assert(d.drop_last() =~= digits_of(n / 10));
        assert(d.last() - 48 == n % 10);
        assert(n == (n / 10) * 10 + n % 10);
        assert(value_of(d) == value_of(d.drop_last()) * 10 + (d.last() - 48));
        assert forall|i: int| 0 <= i < d.len() implies is_digit(#[trigger] d[i]) by {
            if i < d.len() - 1 {
                assert(d[i] == digits_of(n / 10)[i]);
            }
        }
    } else {
        let d = digits_of(n);
        assert(d.drop_last() =~= Seq::<u8>::empty());
        assert(value_of(d) == value_of(d.drop_last()) * 10 + (d.last() - 48));
    }
}

/// Reading the decimal notation of a number gives the number back.
pub proof fn lemma_parse_digits(n: u32)
    ensures
        parse_spec(digits_of(n as nat)) == Some(n),
{
    lemma_digits_of(n as nat);
}

proof fn lemma_value_nonneg(d: Seq<u8>)
    requires
        all_digits(d),
    ensures
        value_of(d) >= 0,
    decreases d.len(),
{
    if d.len() > 0 {
        assert(all_digits(d.drop_last())) by {
            assert forall|i: int| 0 <= i < d.len() - 1 implies is_digit(#[trigger] d.drop_last()[i]) by {
                assert(d.drop_last()[i] == d[i]);
            }
        }
        lemma_value_nonneg(d.drop_last());
        assert(is_digit(d[d.len() - 1]));
    }
}

proof fn lemma_value_prefix_le(d: Seq<u8>, i: int)
    requires
        all_digits(d),
        0 <= i <= d.len(),
    ensures
        value_of(d.take(i)) <= value_of(d),
    decreases d.len() - i,
{
    if i < d.len() {
        lemma_value_prefix_le(d, i + 1);
        let t = d.take(i + 1);
        assert(t.drop_last() =~= d.take(i));
        assert(is_digit(d[i]));
        assert(t[i] == d[i]);
        assert(all_digits(d.take(i))) by {
            assert forall|j: int| 0 <= j < i implies is_digit(#[trigger] d.take(i)[j]) by {
                assert(d.take(i)[j] == d[j]);
            }
        }
        lemma_value_nonneg(d.take(i));
    } else {
        assert(d.take(i) =~= d);
    }
}

/// Appends the decimal notation of `n`.
pub fn push_decimal(out: &mut Vec<u8>, n: u32)
    ensures
        final(out)@ == old(out)@ + digits_of(n as nat),
    decreases n,
{
    if n < 10 {
        out.push(48 + n as u8);
        assert(final(out)@ =~= old(out)@ + digits_of(n as nat));
    } else {
        push_decimal(out, n / 10);
        out.push(48 + (n % 10) as u8);
        assert(final(out)@ =~= old(out)@ + digits_of(n as nat));
    }
}

/// Reads a non-empty run of decimal digits whose value fits in a `u32`.
pub fn parse_decimal(d: &[u8]) -> (r: Option<u32>)
    ensures
        r == parse_spec(d@),
{
    if d.len() == 0 {
        return None;
    }
    let mut acc: u64 = 0;
    let mut i: usize = 0;
    while i < d.len()
        invariant
            0 <= i <= d@.len(),
            all_digits(d@.take(i as int)),
            acc == value_of(d@.take(i as int)),
            acc <= u32::MAX,
        decreases d@.len() - i,
    {
        let b = d[i];
        if b < 48 || b > 57 {
            assert(!is_digit(d@[i as int]));
            return None;
        }
        assert(d@.take(i + 1).drop_last() =~= d@.take(i as int));
        acc = acc * 10 + (b - 48) as u64;
        assert(all_digits(d@.take(i + 1))) by {
            assert forall|j: int| 0 <= j < i + 1 implies is_digit(#[trigger] d@.take(i + 1)[j]) by {
                if j < i {
                    assert(d@.take(i + 1)[j] == d@.take(i as int)[j]);
                }
            }
        }
        i = i + 1;
        if acc > u32::MAX as u64 {
            proof {
                if all_digits(d@) {
                    lemma_value_prefix_le(d@, i as int);
                }
            }
            return None;
        }
    }
    assert(d@.take(i as int) =~= d@);
    Some(acc as u32)
}

} // verus!
