//! Character-level helpers shared by the snapshot codec, the snapshot-name
//! date parser and the dump locator: decimal digits, literal and suffix
//! matching, and the thousands separator.

use vstd::prelude::*;

verus! {

/// `c` is an ASCII decimal digit.
pub open spec fn is_digit(c: char) -> bool {
    48 <= c as u32 <= 57
}

/// Numeric value of a digit character.
pub open spec fn dval(c: char) -> int {
    c as u32 - 48
}

/// The digit character for a value in `0..10`.
pub open spec fn digit_char(d: int) -> char {
    if d == 0 {
        '0'
    } else if d == 1 {
        '1'
    } else if d == 2 {
        '2'
    } else if d == 3 {
        '3'
    } else if d == 4 {
        '4'
    } else if d == 5 {
        '5'
    } else if d == 6 {
        '6'
    } else if d == 7 {
        '7'
    } else if d == 8 {
        '8'
    } else {
        '9'
    }
}

/// Every character of `s` is a decimal digit.
pub open spec fn all_digits(s: Seq<char>) -> bool {
    forall|i: int| 0 <= i < s.len() ==> is_digit(#[trigger] s[i])
}

/// Value of a digit string, most significant digit first.
pub open spec fn digits_val(s: Seq<char>) -> int
    decreases s.len(),
{
    if s.len() == 0 {
        0
    } else {
        digits_val(s.drop_last()) * 10 + dval(s.last())
    }
}

pub open spec fn pow10(n: nat) -> nat
    decreases n,
{
    if n == 0 {
        1
    } else {
        10 * pow10((n - 1) as nat)
    }
}

/// Powers of ten do not decrease.
pub proof fn lemma_pow10_mono(m: nat, n: nat)
    requires
        m <= n,
    ensures
        pow10(m) <= pow10(n),
    decreases n,
{
    if m < n {
        lemma_pow10_mono(m, (n - 1) as nat);
        assert(pow10(n) == 10 * pow10((n - 1) as nat));
        assert(pow10((n - 1) as nat) >= 1) by {
            lemma_pow10_pos((n - 1) as nat);
        }
    }
}

/// Powers of ten are positive.
pub proof fn lemma_pow10_pos(n: nat)
    ensures
        pow10(n) >= 1,
    decreases n,
{
    if n > 0 {
        lemma_pow10_pos((n - 1) as nat);
    }
}

/// A digit string's value is bounded by the power of ten of its length.
pub proof fn lemma_digits_val_bound(s: Seq<char>)
    requires
        all_digits(s),
    ensures
        0 <= digits_val(s) < pow10(s.len()),
    decreases s.len(),
{
    if s.len() > 0 {
        assert(all_digits(s.drop_last())) by {
            assert(forall|i: int|
                0 <= i < s.len() - 1 ==> #[trigger] s.drop_last()[i] == s[i]);
        }
        lemma_digits_val_bound(s.drop_last());
        assert(is_digit(s.last()));
    }
}

/// The decimal rendering of a non-negative number, without leading zeros.
pub open spec fn dec_digits(n: nat) -> Seq<char>
    decreases n,
{
    if n < 10 {
        seq![digit_char(n as int)]
    } else {
        dec_digits(n / 10).push(digit_char((n % 10) as int))
    }
}

/// `digit_char` produces digits and `dval` inverts it.
pub proof fn lemma_digit_char(d: int)
    requires
        0 <= d < 10,
    ensures
        is_digit(digit_char(d)),
        dval(digit_char(d)) == d,
{
    if d == 0 {
        assert('0' as u32 == 48);
    } else if d == 1 {
        assert('1' as u32 == 49);
    } else if d == 2 {
        assert('2' as u32 == 50);
    } else if d == 3 {
        assert('3' as u32 == 51);
    } else if d == 4 {
        assert('4' as u32 == 52);
    } else if d == 5 {
        assert('5' as u32 == 53);
    } else if d == 6 {
        assert('6' as u32 == 54);
    } else if d == 7 {
        assert('7' as u32 == 55);
    } else if d == 8 {
        assert('8' as u32 == 56);
    } else {
        assert('9' as u32 == 57);
    }
}

/// The decimal rendering consists of digits, is non-empty, and evaluates
/// back to the number it renders.
pub proof fn lemma_dec_digits(n: nat)
    ensures
        all_digits(dec_digits(n)),
        dec_digits(n).len() >= 1,
        digits_val(dec_digits(n)) == n,
    decreases n,
{
    if n < 10 {
        lemma_digit_char(n as int);
        let s = dec_digits(n);
        assert(s =~= seq![digit_char(n as int)]);
        assert(s.drop_last() =~= Seq::<char>::empty());
        assert(digits_val(s) == digits_val(s.drop_last()) * 10 + dval(s.last()));
        assert(digits_val(s.drop_last()) == 0);
        assert(s.last() == digit_char(n as int));
    } else {
        lemma_dec_digits(n / 10);
        lemma_digit_char((n % 10) as int);
        let prev = dec_digits(n / 10);
        let whole = prev.push(digit_char((n % 10) as int));
        assert(whole.drop_last() =~= prev);
        assert(whole.last() == digit_char((n % 10) as int));
        assert(forall|i: int| 0 <= i < prev.len() ==> whole[i] == #[trigger] prev[i]);
        assert(all_digits(whole));
        assert(digits_val(whole) == digits_val(prev) * 10 + dval(digit_char((n % 10) as int)));
        assert(digits_val(whole) == (n / 10) * 10 + (n % 10));
    }
}

/// A number below `pow10(k)` renders in at most `k` digits.
pub proof fn lemma_dec_digits_len(n: nat, k: nat)
    requires
        n < pow10(k),
        k >= 1,
    ensures
        dec_digits(n).len() <= k,
    decreases n,
{
    if n >= 10 {
        assert(pow10(k) == 10 * pow10((k - 1) as nat));
        lemma_dec_digits_len(n / 10, (k - 1) as nat);
    }
}

/// Is `c` a decimal digit?
pub fn is_digit_char(c: char) -> (r: bool)
    ensures
        r == is_digit(c),
{
    let u = c as u32;
    48 <= u && u <= 57
}

/// Classify one character as a digit, giving its value.
pub fn digit_value(c: char) -> (r: Option<u32>)
    ensures
        match r {
            Some(v) => is_digit(c) && v == dval(c) && v < 10,
            None => !is_digit(c),
        },
{
    let u = c as u32;
    if 48 <= u && u <= 57 {
        Some(u - 48)
    } else {
        None
    }
}

/// Read the digits in `s[from..to]` as a number, or `None` if any
/// character there is not a digit.
pub fn read_digits(s: &str, from: usize, to: usize) -> (r: Option<u32>)
    requires
        from <= to <= s@.len(),
        to - from <= 9,
    ensures
        match r {
            Some(v) => all_digits(s@.subrange(from as int, to as int)) && v == digits_val(
                s@.subrange(from as int, to as int),
            ),
            None => !all_digits(s@.subrange(from as int, to as int)),
        },
{
    let mut val: u32 = 0;
    let mut k: usize = from;
    proof {
        assert(s@.subrange(from as int, from as int) =~= Seq::<char>::empty());
        assert(pow10(0) == 1);
        assert(pow10(1) == 10);
        assert(pow10(2) == 100);
        assert(pow10(3) == 1000);
        assert(pow10(4) == 10000);
        assert(pow10(5) == 100000);
        assert(pow10(6) == 1000000);
        assert(pow10(7) == 10000000);
        assert(pow10(8) == 100000000);
        assert(pow10(9) == 1000000000);
    }
    while k < to
        invariant
            from <= k <= to <= s@.len(),
            to - from <= 9,
            all_digits(s@.subrange(from as int, k as int)),
            val == digits_val(s@.subrange(from as int, k as int)),
            val < pow10((k - from) as nat),
            pow10(8) == 100000000,
            pow10(9) == 1000000000,
        decreases to - k,
    {
        let c = s.get_char(k);
        let d = match digit_value(c) {
            Some(d) => d,
            None => {
                proof {
                    let whole = s@.subrange(from as int, to as int);
                    assert(whole[k - from] == s@[k as int]);
                }
                return None;
            },
        };
        proof {
            lemma_pow10_mono((k - from) as nat, 8);
            let prefix = s@.subrange(from as int, k as int);
            let next = s@.subrange(from as int, k + 1);
            assert(next.drop_last() =~= prefix);
            assert(next.last() == s@[k as int]);
            assert(forall|j: int| 0 <= j < prefix.len() ==> next[j] == #[trigger] prefix[j]);
            assert(pow10(((k + 1) - from as int) as nat) == 10 * pow10((k - from) as nat));
        }
        val = val * 10 + d;
        k = k + 1;
    }
    proof {
        assert(s@.subrange(from as int, to as int) == s@.subrange(from as int, k as int));
    }
    Some(val)
}

/// Append the decimal rendering of `n` to `out`.
pub fn append_num(out: &mut String, n: u64)
    ensures
        final(out)@ == old(out)@ + dec_digits(n as nat),
    decreases n,
{
    if n >= 10 {
        append_num(out, n / 10);
    }
    let d = n % 10;
    let ds: &str = match d {
        0 => "0",
        1 => "1",
        2 => "2",
        3 => "3",
        4 => "4",
        5 => "5",
        6 => "6",
        7 => "7",
        8 => "8",
        _ => "9",
    };
    proof {
        reveal_strlit("0");
        reveal_strlit("1");
        reveal_strlit("2");
        reveal_strlit("3");
        reveal_strlit("4");
        reveal_strlit("5");
        reveal_strlit("6");
        reveal_strlit("7");
        reveal_strlit("8");
        reveal_strlit("9");
        assert(ds@ =~= seq![digit_char(d as int)]);
    }
    out.append(ds);
    proof {
        if n < 10 {
            assert(dec_digits(n as nat) =~= seq![digit_char(n as int)]);
            assert(final(out)@ =~= old(out)@ + dec_digits(n as nat));
        } else {
            assert(dec_digits(n as nat) =~= dec_digits((n / 10) as nat).push(
                digit_char((n % 10) as int),
            ));
            assert(final(out)@ =~= old(out)@ + dec_digits(n as nat));
        }
    }
}

/// Does `lit` occur in `s` at position `pos`?
pub fn match_lit(s: &str, pos: usize, lit: &str) -> (r: bool)
    requires
        pos <= s@.len(),
    ensures
        r == (pos + lit@.len() <= s@.len() && s@.subrange(pos as int, pos + lit@.len()) == lit@),
{
    let len = s.unicode_len();
    let llen = lit.unicode_len();
    if llen > len - pos {
        return false;
    }
    let mut j: usize = 0;
    while j < llen
        invariant
            len == s@.len(),
            llen == lit@.len(),
            pos + llen <= len,
            j <= llen,
            forall|k: int| 0 <= k < j ==> s@[pos + k] == lit@[k],
        decreases llen - j,
    {
        if s.get_char(pos + j) != lit.get_char(j) {
            proof {
                let sub = s@.subrange(pos as int, pos + lit@.len());
                assert(sub[j as int] == s@[pos + j]);
            }
            return false;
        }
        j = j + 1;
    }
    proof {
        assert(s@.subrange(pos as int, pos + lit@.len()) =~= lit@);
    }
    true
}


/// Number of consecutive digits at and after position `i`.
pub open spec fn digit_run_len(s: Seq<char>, i: int) -> int
    decreases s.len() - i,
{
    if i < 0 || i >= s.len() || !is_digit(s[i]) {
        0
    } else {
        1 + digit_run_len(s, i + 1)
    }
}

proof fn lemma_digit_run_len_char(s: Seq<char>, from: int, i: int)
    requires
        0 <= from <= i <= s.len(),
        forall|j: int| from <= j < i ==> is_digit(#[trigger] s[j]),
        i == s.len() || !is_digit(s[i]),
    ensures
        digit_run_len(s, from) == i - from,
    decreases i - from,
{
    if from < i {
        lemma_digit_run_len_char(s, from + 1, i);
    }
}

fn run_len_at(s: &str, from: usize) -> (r: usize)
    requires
        from <= s@.len(),
    ensures
        r == digit_run_len(s@, from as int),
{
    let len = s.unicode_len();
    let mut i = from;
    while i < len && is_digit_char(s.get_char(i))
        invariant
            len == s@.len(),
            from <= i <= len,
            forall|j: int| from <= j < i ==> is_digit(#[trigger] s@[j]),
        decreases len - i,
    {
        i = i + 1;
    }
    proof {
        lemma_digit_run_len_char(s@, from as int, i as int);
    }
    i - from
}

/// The text with thousands separators: a comma between two digits
/// whenever a multiple of three digits follows, within each maximal digit
/// run; all other characters pass through unchanged.
pub open spec fn spec_commafy(s: Seq<char>, i: int) -> Seq<char>
    decreases s.len() - i,
{
    if i < 0 || i >= s.len() {
        Seq::empty()
    } else {
        let sep = if is_digit(s[i]) && digit_run_len(s, i + 1) > 0 && digit_run_len(s, i + 1) % 3
            == 0 {
            seq![',']
        } else {
            Seq::empty()
        };
        seq![s[i]] + sep + spec_commafy(s, i + 1)
    }
}

/// Stick commas into the digit runs of `s`, in groups of three from the
/// right.
pub fn commafy(s: &str) -> (r: String)
    ensures
        r@ == spec_commafy(s@, 0),
{
    let len = s.unicode_len();
    let mut out = String::new();
    let mut i: usize = 0;
    proof {
        assert(out@ + spec_commafy(s@, 0) =~= spec_commafy(s@, 0));
    }
    while i < len
        invariant
            len == s@.len(),
            i <= len,
            spec_commafy(s@, 0) =~= out@ + spec_commafy(s@, i as int),
        decreases len - i,
    {
        let ghost before = out@;
        let piece = s.substring_char(i, i + 1);
        proof {
            assert(piece@ =~= seq![s@[i as int]]);
        }
        out.append(piece);
        let c = s.get_char(i);
        let ghost sep_empty = Seq::<char>::empty();
        if is_digit_char(c) {
            let rl = run_len_at(s, i + 1);
            if rl > 0 && rl % 3 == 0 {
                out.append(",");
                proof {
                    reveal_strlit(",");
                    assert(","@ =~= seq![',']);
                    assert(out@ =~= before + (seq![s@[i as int]] + seq![',']));
                }
            } else {
                proof {
                    assert(out@ =~= before + (seq![s@[i as int]] + sep_empty));
                }
            }
        } else {
            proof {
                assert(out@ =~= before + (seq![s@[i as int]] + sep_empty));
            }
        }
        proof {
            assert(spec_commafy(s@, 0) =~= out@ + spec_commafy(s@, i + 1));
        }
        i = i + 1;
    }
    proof {
        assert(spec_commafy(s@, len as int) =~= Seq::<char>::empty());
        assert(out@ =~= spec_commafy(s@, 0));
    }
    out
}

/// `s` ends with `suffix`.
pub open spec fn has_suffix(s: Seq<char>, suffix: Seq<char>) -> bool {
    suffix.len() <= s.len() && s.skip(s.len() - suffix.len()) == suffix
}

/// Does `s` end with `suffix`?
pub fn str_ends_with(s: &str, suffix: &str) -> (r: bool)
    ensures
        r == has_suffix(s@, suffix@),
{
    let len = s.unicode_len();
    let suflen = suffix.unicode_len();
    if suflen > len {
        return false;
    }
    let start = len - suflen;
    let mut j: usize = 0;
    while j < suflen
        invariant
            len == s@.len(),
            suflen == suffix@.len(),
            suflen <= len,
            start == len - suflen,
            j <= suflen,
            forall|k: int| 0 <= k < j ==> s@[start + k] == suffix@[k],
        decreases suflen - j,
    {
        if s.get_char(start + j) != suffix.get_char(j) {
            proof {
                let tail = s@.skip(s@.len() - suffix@.len());
                assert(tail[j as int] == s@[start + j]);
            }
            return false;
        }
        j = j + 1;
    }
    proof {
        assert(s@.skip(s@.len() - suffix@.len()) =~= suffix@);
    }
    true
}

} // verus!
