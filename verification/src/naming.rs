use vstd::prelude::*;

verus! {

/// The byte is an ASCII decimal digit.
pub open spec fn is_digit(b: u8) -> bool {
    48 <= b <= 57
}

/// Every byte of `s` is an ASCII decimal digit.
pub open spec fn all_digits(s: Seq<u8>) -> bool {
    forall|i: int| 0 <= i < s.len() ==> is_digit(#[trigger] s[i])
}

/// The number an ASCII digit string denotes, most significant digit
/// first.
pub open spec fn digits_value(s: Seq<u8>) -> int
    decreases s.len(),
{
    if s.len() == 0 {
        0
    } else {
        digits_value(s.drop_last()) * 10 + (s.last() - 48)
    }
}

/// The digit part of an unsigned integer numeral: one optional leading
/// plus sign is dropped, as the standard integer parser drops it.
pub open spec fn numeral_digits(s: Seq<u8>) -> Seq<u8> {
    if s.len() > 0 && s[0] == 43 {
        s.drop_first()
    } else {
        s
    }
}

/// `s` parses as a 32-bit unsigned integer: at least one digit, nothing
/// but digits after the optional sign, and a value that fits.
pub open spec fn parses_as_u32(s: Seq<u8>) -> bool {
    let d = numeral_digits(s);
    &&& d.len() > 0
    &&& all_digits(d)
    &&& digits_value(d) <= u32::MAX as int
}

/// The file name is an integer-numbered CSV entry: an unsigned integer
/// stem followed by the four bytes of the `.csv` suffix.
pub open spec fn is_numbered_csv(s: Seq<u8>) -> bool {
    &&& s.len() >= 4
    &&& s[s.len() - 4] == 46
    &&& s[s.len() - 3] == 99
    &&& s[s.len() - 2] == 115
    &&& s[s.len() - 1] == 118
    &&& parses_as_u32(s.subrange(0, s.len() - 4))
}

/// The number in the stem of an integer-numbered CSV file name.
pub open spec fn numbered_csv_value(s: Seq<u8>) -> int {
    digits_value(numeral_digits(s.subrange(0, s.len() - 4)))
}

proof fn lemma_digits_value_nonneg(s: Seq<u8>)
    requires
        all_digits(s),
    ensures
        digits_value(s) >= 0,
    decreases s.len(),
{
    if s.len() > 0 {
        assert(all_digits(s.drop_last())) by {
            assert(forall|i: int| 0 <= i < s.len() - 1 ==> s.drop_last()[i] == s[i]);
        }
        lemma_digits_value_nonneg(s.drop_last());
    }
}

/// A digit string is worth at least any of its prefixes.
proof fn lemma_digits_value_take_mono(s: Seq<u8>, j: int)
    requires
        all_digits(s),
        0 <= j <= s.len(),
    ensures
        digits_value(s.take(j)) <= digits_value(s),
    decreases s.len() - j,
{
    if j == s.len() {
        assert(s.take(j) =~= s);
    } else {
        lemma_digits_value_take_mono(s, j + 1);
        let p = s.take(j + 1);
        assert(p.drop_last() =~= s.take(j));
        assert(p.last() == s[j]);
        assert(all_digits(s.take(j))) by {
            assert(forall|i: int| 0 <= i < j ==> s.take(j)[i] == s[i]);
        }
        lemma_digits_value_nonneg(s.take(j));
        assert(digits_value(p) == digits_value(s.take(j)) * 10 + (s[j] - 48));
        assert(digits_value(s.take(j)) * 10 >= digits_value(s.take(j))) by (nonlinear_arith)
            requires
                digits_value(s.take(j)) >= 0,
        ;
    }
}

/// Parses a file name of the form `<unsigned integer>.csv` and returns
/// the number in the stem; any other name is `None`.
pub fn parse_numbered_csv(name: &Vec<u8>) -> (r: Option<u32>)
    ensures
        (match r {
            Some(v) => is_numbered_csv(name@) && v as int == numbered_csv_value(name@),
            None => !is_numbered_csv(name@),
        }),
{
    let n = name.len();
    if n < 4 {
        return None;
    }
    if !(name[n - 4] == 46 && name[n - 3] == 99 && name[n - 2] == 115 && name[n - 1] == 118) {
        return None;
    }
    let stem_len = n - 4;
    let ghost stem = name@.subrange(0, stem_len as int);
    let ghost digits = numeral_digits(stem);
    let mut start: usize = 0;
    if stem_len > 0 && name[0] == 43 {
        start = 1;
    }
    proof {
        assert(digits =~= stem.subrange(start as int, stem_len as int));
    }
    if start >= stem_len {
        proof {
            assert(digits.len() == 0);
        }
        return None;
    }
    let mut v: u32 = 0;
    let mut k: usize = start;
    while k < stem_len
        invariant
            stem == name@.subrange(0, stem_len as int),
            digits == numeral_digits(stem),
            digits =~= stem.subrange(start as int, stem_len as int),
            stem_len + 4 == name@.len(),
            start <= k <= stem_len,
            v as int == digits_value(digits.take(k - start)),
            forall|w: int| 0 <= w < k - start ==> is_digit(#[trigger] digits[w]),
        decreases stem_len - k,
    {
        let d = name[k];
        proof {
            assert(digits[k - start] == name@[k as int]);
        }
        if d < 48 || d > 57 {
            proof {
                assert(!is_digit(digits[k - start]));
            }
            return None;
        }
        let dv: u32 = (d - 48) as u32;
        if v > (u32::MAX - dv) / 10 {
            proof {
                let m = k - start;
                let p = digits.take(m + 1);
                assert(p.drop_last() =~= digits.take(m as int));
                assert(p.last() == digits[m as int]);
                assert(digits_value(p) == (v as int) * 10 + dv);
                assert((v as int) * 10 + dv > u32::MAX as int) by (nonlinear_arith)
                    requires
                        v as int > ((u32::MAX - dv) as int) / 10,
                        0 <= dv <= 9,
                        v >= 0,
                ;
                if all_digits(digits) {
                    assert(all_digits(p)) by {
                        assert(forall|i: int| 0 <= i < p.len() ==> p[i] == digits[i]);
                    }
                    lemma_digits_value_take_mono(digits, m + 1);
                    assert(digits_value(digits) > u32::MAX as int);
                }
            }
            return None;
        }
        proof {
            let m = k - start;
            let p = digits.take(m + 1);
            assert(p.drop_last() =~= digits.take(m as int));
            assert(p.last() == digits[m as int]);
            assert(digits_value(p) == (v as int) * 10 + dv);
            assert((v as int) * 10 + dv <= u32::MAX as int) by (nonlinear_arith)
                requires
                    v as int <= ((u32::MAX - dv) as int) / 10,
                    0 <= dv <= 9,
                    v >= 0,
            ;
        }
        v = v * 10 + dv;
        k += 1;
    }
    proof {
        assert(digits.take(digits.len() as int) =~= digits);
        assert(is_numbered_csv(name@));
    }
    Some(v)
}

/// The fresh index the file saver writes next: one more than the largest
/// integer-numbered `.csv` entry among `names`, or zero where there is
/// none, so that repeated saves never collide with an existing file.
pub fn next_file_index(names: &Vec<Vec<u8>>) -> (r: u32)
    requires
        forall|k: int|
            0 <= k < names@.len() && is_numbered_csv(#[trigger] names@[k]@)
                ==> numbered_csv_value(names@[k]@) < u32::MAX as int,
    ensures
        r == 0 ==> forall|k: int| 0 <= k < names@.len() ==> !is_numbered_csv(#[trigger] names@[k]@),
        r > 0 ==> exists|k: int|
            0 <= k < names@.len() && is_numbered_csv(#[trigger] names@[k]@)
                && numbered_csv_value(names@[k]@) == r - 1,
        forall|k: int|
            0 <= k < names@.len() && is_numbered_csv(#[trigger] names@[k]@)
                ==> numbered_csv_value(names@[k]@) <= r - 1,
{
    let mut max_num: u32 = 0;
    let mut i: usize = 0;
    while i < names.len()
        invariant
            0 <= i <= names@.len(),
            forall|k: int|
                0 <= k < names@.len() && is_numbered_csv(#[trigger] names@[k]@)
                    ==> numbered_csv_value(names@[k]@) < u32::MAX as int,
            max_num == 0 ==> forall|k: int|
                0 <= k < i ==> !is_numbered_csv(#[trigger] names@[k]@),
            max_num > 0 ==> exists|k: int|
                0 <= k < i && is_numbered_csv(#[trigger] names@[k]@)
                    && numbered_csv_value(names@[k]@) == max_num - 1,
            forall|k: int|
                0 <= k < i && is_numbered_csv(#[trigger] names@[k]@)
                    ==> numbered_csv_value(names@[k]@) <= max_num - 1,
        decreases names.len() - i,
    {
        match parse_numbered_csv(&names[i]) {
            Some(num) => {
                if num >= max_num {
                    max_num = num + 1;
                }
            },
            None => {},
        }
        i += 1;
    }
    max_num
}

} // verus!
