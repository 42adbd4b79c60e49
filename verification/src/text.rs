//! Small verified text helpers: decimal fields, signed integers, character
//! search and string equality.

use vstd::prelude::*;
use vstd::string::StrSliceExecFns;

verus! {

pub open spec fn is_digit(c: char) -> bool {
    48 <= c as int <= 57
}

pub open spec fn digit_val(c: char) -> int {
    c as int - 48
}

pub open spec fn all_digits(s: Seq<char>, i: int, j: int) -> bool {
    forall|k: int| i <= k < j ==> is_digit(s[k])
}

/// The value of the decimal digits `s[i..j]`.
pub open spec fn dec_val(s: Seq<char>, i: int, j: int) -> int
    decreases j - i,
{
    if j <= i {
        0
    } else {
        dec_val(s, i, j - 1) * 10 + digit_val(s[j - 1])
    }
}

pub open spec fn pow10(n: nat) -> int
    decreases n,
{
    if n == 0 {
        1
    } else {
        10 * pow10((n - 1) as nat)
    }
}

pub proof fn lemma_dec_val_bound(s: Seq<char>, i: int, j: int)
    requires
        i <= j,
        all_digits(s, i, j),
    ensures
        0 <= dec_val(s, i, j) < pow10((j - i) as nat),
    decreases j - i,
{
    if i < j {
        lemma_dec_val_bound(s, i, j - 1);
    }
}

/// Growing a digit string can only grow its value.
pub proof fn lemma_dec_val_mono(s: Seq<char>, i: int, k: int, j: int)
    requires
        i <= k <= j,
        all_digits(s, i, j),
    ensures
        dec_val(s, i, k) <= dec_val(s, i, j),
    decreases j - k,
{
    if k < j {
        lemma_dec_val_mono(s, i, k, j - 1);
        lemma_dec_val_bound(s, i, j - 1);
    }
}

/// Reads the fixed decimal field `s[i..j]`; `None` when a character there is
/// not a digit.
pub fn dec_field(s: &str, i: usize, j: usize) -> (r: Option<u32>)
    requires
        i <= j <= s@.len(),
        j - i <= 8,
    ensures
        r matches Some(v) ==> all_digits(s@, i as int, j as int) && v == dec_val(
            s@,
            i as int,
            j as int,
        ),
        r is None ==> !all_digits(s@, i as int, j as int),
{
    let mut k: usize = i;
    let mut acc: u32 = 0;
    while k < j
        invariant
            i <= k <= j <= s@.len(),
            j - i <= 8,
            all_digits(s@, i as int, k as int),
            acc == dec_val(s@, i as int, k as int),
            acc < pow10((k - i) as nat),
        decreases j - k,
    {
        let c = s.get_char(k);
        let cv = c as u32;
        if cv < 48 || cv > 57 {
            assert(!is_digit(s@[k as int]));
            return None;
        }
        proof {
            lemma_dec_val_bound(s@, i as int, k as int);
            assert(pow10((k - i) as nat) <= pow10(7)) by {
                lemma_pow10_mono((k - i) as nat, 7);
            }
            assert(pow10(7) == 10000000) by {
                reveal_with_fuel(pow10, 8);
            }
        }
        acc = acc * 10 + (cv - 48);
        k = k + 1;
    }
    Some(acc)
}

pub proof fn lemma_pow10_value_4()
    ensures
        pow10(4) == 10000,
{
    reveal_with_fuel(pow10, 5);
}

proof fn lemma_pow10_pos(n: nat)
    ensures
        pow10(n) >= 1,
    decreases n,
{
    if n > 0 {
        lemma_pow10_pos((n - 1) as nat);
    }
}

proof fn lemma_pow10_mono(a: nat, b: nat)
    requires
        a <= b,
    ensures
        1 <= pow10(a) <= pow10(b),
    decreases b - a,
{
    lemma_pow10_pos(a);
    if a < b {
        lemma_pow10_mono(a, (b - 1) as nat);
        lemma_pow10_pos((b - 1) as nat);
    }
}

/// The meaning of a decimal string with an optional sign, as `i64::from_str`
/// reads it: `None` for an empty or malformed string or a value outside
/// `i64`'s range.
pub open spec fn spec_parse_i64(s: Seq<char>) -> Option<int> {
    if s.len() == 0 {
        None
    } else {
        let neg = s[0] == '-';
        let ds = if s[0] == '-' || s[0] == '+' {
            s.skip(1)
        } else {
            s
        };
        if ds.len() == 0 || !all_digits(ds, 0, ds.len() as int) {
            None
        } else {
            let v = if neg {
                -dec_val(ds, 0, ds.len() as int)
            } else {
                dec_val(ds, 0, ds.len() as int)
            };
            if i64::MIN <= v <= i64::MAX {
                Some(v)
            } else {
                None
            }
        }
    }
}

/// Parses a signed 64-bit integer from decimal text.
pub fn parse_i64(s: &str) -> (r: Option<i64>)
    ensures
        r matches Some(v) ==> spec_parse_i64(s@) == Some(v as int),
        r is None ==> spec_parse_i64(s@) is None,
{
    let n = s.unicode_len();
    if n == 0 {
        return None;
    }
    let c0 = s.get_char(0);
    let neg = c0 == '-';
    let start: usize = if c0 == '-' || c0 == '+' {
        1
    } else {
        0
    };
    let ghost ds = if c0 == '-' || c0 == '+' {
        s@.skip(1)
    } else {
        s@
    };
    if n == start {
        return None;
    }
    // Accumulate negated, so that `i64::MIN` parses without overflow.
    let mut acc: i64 = 0;
    let mut k: usize = start;
    while k < n
        invariant
            start <= k <= n == s@.len(),
            start <= 1,
            (start == 1) == (s@[0] == '-' || s@[0] == '+'),
            neg == (s@[0] == '-'),
            ds == (if start == 1 {
                s@.skip(1)
            } else {
                s@
            }),
            ds.len() == n - start,
            forall|q: int| 0 <= q < ds.len() ==> ds[q] == s@[q + start],
            all_digits(ds, 0, k - start),
            acc == -dec_val(ds, 0, k - start),
        decreases n - k,
    {
        let c = s.get_char(k);
        let cv = c as u32;
        if cv < 48 || cv > 57 {
            assert(!is_digit(ds[k - start]));
            assert(!all_digits(ds, 0, ds.len() as int));
            return None;
        }
        assert(is_digit(ds[k - start]) && digit_val(ds[k - start]) == cv - 48);
        proof {
            lemma_dec_val_bound(ds, 0, k - start);
        }
        let acc10 = match acc.checked_mul(10) {
            Some(a) => a,
            None => {
                proof {
                    overflow_means_none(ds, (k - start) as int, acc as int);
                }
                return None;
            },
        };
        let acc2 = match acc10.checked_sub((cv - 48) as i64) {
            Some(a) => a,
            None => {
                proof {
                    overflow_means_none(ds, (k - start) as int, acc as int);
                }
                return None;
            },
        };
        acc = acc2;
        k = k + 1;
    }
    if neg {
        Some(acc)
    } else {
        if acc == i64::MIN {
            None
        } else {
            Some(-acc)
        }
    }
}

/// If the running (negated) value has already fallen below `i64::MIN`, the
/// full string's value is out of range too.
proof fn overflow_means_none(ds: Seq<char>, k: int, acc: int)
    requires
        0 <= k < ds.len(),
        all_digits(ds, 0, k),
        is_digit(ds[k]),
        acc == -dec_val(ds, 0, k),
        acc * 10 - digit_val(ds[k]) < i64::MIN,
    ensures
        all_digits(ds, 0, ds.len() as int) ==> dec_val(ds, 0, ds.len() as int) > i64::MAX
            && -dec_val(ds, 0, ds.len() as int) < i64::MIN,
{
    if all_digits(ds, 0, ds.len() as int) {
        assert(dec_val(ds, 0, k + 1) == dec_val(ds, 0, k) * 10 + digit_val(ds[k]));
        lemma_dec_val_mono(ds, 0, k + 1, ds.len() as int);
        lemma_dec_val_bound(ds, 0, k);
    }
}

/// Whether `s` holds the character `c`.
pub fn contains_char(s: &str, c: char) -> (r: bool)
    ensures
        r == s@.contains(c),
{
    let n = s.unicode_len();
    let mut i: usize = 0;
    while i < n
        invariant
            0 <= i <= n == s@.len(),
            forall|j: int| 0 <= j < i ==> s@[j] != c,
        decreases n - i,
    {
        if s.get_char(i) == c {
            assert(s@.contains(c));
            return true;
        }
        i = i + 1;
    }
    assert(!s@.contains(c)) by {
        assert(forall|j: int| 0 <= j < s@.len() ==> s@[j] != c);
    }
    false
}

/// Equality of two string slices, by contents.
pub fn str_eq(a: &str, b: &str) -> (r: bool)
    ensures
        r == (a@ == b@),
{
    let sa: String = a.to_owned();
    let sb: String = b.to_owned();
    sa == sb
}


/// Index of the first occurrence of `c`, or the length when there is none.
pub open spec fn find_char(s: Seq<char>, c: char) -> int
    decreases s.len(),
{
    if s.len() == 0 {
        0
    } else if s[0] == c {
        0
    } else {
        1 + find_char(s.drop_first(), c)
    }
}

/// Index of the first comma, or the length when there is none.
pub open spec fn first_comma(s: Seq<char>) -> int {
    find_char(s, ',')
}

pub proof fn lemma_find_char(s: Seq<char>, c: char)
    ensures
        0 <= find_char(s, c) <= s.len(),
        forall|k: int| 0 <= k < find_char(s, c) ==> s[k] != c,
        find_char(s, c) < s.len() ==> s[find_char(s, c)] == c,
    decreases s.len(),
{
    if s.len() > 0 && s[0] != c {
        let s2 = s.drop_first();
        lemma_find_char(s2, c);
        assert forall|k: int| 0 <= k < find_char(s, c) implies s[k] != c by {
            if k > 0 {
                assert(s2[k - 1] == s[k]);
            }
        }
        if find_char(s, c) < s.len() {
            assert(s2[find_char(s, c) - 1] == s[find_char(s, c)]);
        }
    }
}

pub proof fn lemma_first_comma(s: Seq<char>)
    ensures
        0 <= first_comma(s) <= s.len(),
        forall|k: int| 0 <= k < first_comma(s) ==> s[k] != ',',
        first_comma(s) < s.len() ==> s[first_comma(s)] == ',',
{
    lemma_find_char(s, ',');
}

/// Index of the first occurrence of `c` in `s`, or its length.
pub fn find_char_of(s: &str, c: char) -> (r: usize)
    ensures
        r == find_char(s@, c),
        r <= s@.len(),
{
    proof {
        lemma_find_char(s@, c);
    }
    let n = s.unicode_len();
    let mut i: usize = 0;
    while i < n && s.get_char(i) != c
        invariant
            0 <= i <= n == s@.len(),
            forall|k: int| 0 <= k < i ==> s@[k] != c,
            i <= find_char(s@, c),
        decreases n - i,
    {
        i = i + 1;
        proof {
            lemma_find_char(s@, c);
            if find_char(s@, c) < i {
                assert(s@[find_char(s@, c)] != c);
            }
        }
    }
    proof {
        lemma_find_char(s@, c);
        if i < n && find_char(s@, c) > i {
            assert(s@[i as int] != c);
        }
    }
    i
}

/// Index of the first comma in `s`, or its length when there is none.
pub fn first_comma_of(s: &str) -> (r: usize)
    ensures
        r == first_comma(s@),
        r <= s@.len(),
{
    find_char_of(s, ',')
}

} // verus!
