//! Small verified text helpers: character-exact string comparison, reading
//! a decimal index from a selector segment, and printing a decimal number.
use vstd::prelude::*;
use vstd::string::StrSliceExecFns;
use vstd::string::StringExecFns;

use crate::model::{all_digits, digits_val, lemma_digits_val_nonneg, parse_index, text_bytes};


verus! {

/// The byte length of a string slice's UTF-8 form.
pub fn str_byte_len(s: &str) -> (r: usize)
    ensures
        r == text_bytes(s@),
{
    broadcast use vstd::slice::group_slice_axioms;

    s.as_bytes().len()
}

/// Character-by-character equality of two string slices.
pub fn str_eq(a: &str, b: &str) -> (r: bool)
    ensures
        r == (a@ == b@),
{
    let na = a.unicode_len();
    let nb = b.unicode_len();
    if na != nb {
        return false;
    }
    let mut i: usize = 0;
    while i < na
        invariant
            na == a@.len(),
            na == b@.len(),
            0 <= i <= na,
            forall|j: int| 0 <= j < i ==> a@[j] == b@[j],
        decreases na - i,
    {
        if a.get_char(i) != b.get_char(i) {
            return false;
        }
        i = i + 1;
    }
    proof {
        assert(a@ =~= b@);
    }
    true
}

/// The character of one decimal digit.
pub open spec fn digit_char(d: int) -> char {
    if d == 0 {
        '0'
    } else if d == 1 {
        '1'
    } else if d == 2 {
        '2'
    } else if d == 3 {
        '3'
    } else if d == 4 {
        '4'
    } else if d == 5 {
        '5'
    } else if d == 6 {
        '6'
    } else if d == 7 {
        '7'
    } else if d == 8 {
        '8'
    } else {
        '9'
    }
}

/// The canonical decimal text of a non-negative number.
pub open spec fn dec_str(n: int) -> Seq<char>
    decreases n,
{
    if n < 10 {
        seq![digit_char(n)]
    } else {
        dec_str(n / 10).push(digit_char(n % 10))
    }
}

fn digit_str(d: usize) -> (r: &'static str)
    requires
        d < 10,
    ensures
        r@ =~= seq![digit_char(d as int)],
{
    let r: &'static str = match d {
        0 => "0",
        1 => "1",
        2 => "2",
        3 => "3",
        4 => "4",
        5 => "5",
        6 => "6",
        7 => "7",
        8 => "8",
        _ => "9",
    };
    proof {
        reveal_strlit("0");
        reveal_strlit("1");
        reveal_strlit("2");
        reveal_strlit("3");
        reveal_strlit("4");
        reveal_strlit("5");
        reveal_strlit("6");
        reveal_strlit("7");
        reveal_strlit("8");
        reveal_strlit("9");
    }
    r
}

/// Prints `n` in decimal.
pub fn usize_to_string(n: usize) -> (r: String)
    ensures
        r@ == dec_str(n as int),
    decreases n,
{
    if n < 10 {
        digit_str(n).to_owned()
    } else {
        let mut s = usize_to_string(n / 10);
        s.append(digit_str(n % 10));
        proof {
            assert(s@ =~= dec_str((n / 10) as int).push(digit_char((n % 10) as int)));
        }
        s
    }
}

proof fn lemma_digits_val_take_succ(t: Seq<char>, k: int)
    requires
        0 <= k < t.len(),
    ensures
        digits_val(t.take(k + 1)) == digits_val(t.take(k)) * 10 + (t[k] as int - '0' as int),
{
    assert(t.take(k + 1).drop_last() =~= t.take(k));
    assert(t.take(k + 1).last() == t[k]);
}

proof fn lemma_digits_val_prefix_le(t: Seq<char>, j: int)
    requires
        all_digits(t),
        0 <= j <= t.len(),
    ensures
        digits_val(t.take(j)) <= digits_val(t),
    decreases t.len() - j,
{
    if j < t.len() {
        lemma_digits_val_take_succ(t, j);
        assert(all_digits(t.take(j)));
        lemma_digits_val_nonneg(t.take(j));
        lemma_digits_val_prefix_le(t, j + 1);
    } else {
        assert(t.take(j) =~= t);
    }
}

/// Reads a selector segment as an array index, exactly as `usize` is read
/// from text: an optional leading `+`, then decimal digits that fit the
/// machine word.
#[verifier::loop_isolation(false)]
pub fn parse_usize(s: &str) -> (r: Option<usize>)
    ensures
        match parse_index(s@) {
            Some(v) => r is Some && r.unwrap() == v,
            None => r is None,
        },
{
    let n = s.unicode_len();
    let mut off: usize = 0;
    if n > 0 && s.get_char(0) == '+' {
        off = 1;
    }
    let ghost t = if s@.len() > 0 && s@[0] == '+' {
        s@.drop_first()
    } else {
        s@
    };
    proof {
        assert(t =~= s@.subrange(off as int, n as int));
    }
    if off == n {
        return None;
    }
    let mut val: usize = 0;
    let mut i: usize = off;
    while i < n
        invariant
            off <= i <= n,
            off <= 1,
            n == s@.len(),
            off < n,
            t =~= s@.subrange(off as int, n as int),
            all_digits(t.take(i - off)),
            val == digits_val(t.take(i - off)),
        decreases n - i,
    {
        let c = s.get_char(i);
        let d = c as u32;
        if d < 48 || d > 57 {
            proof {
                assert(t[i - off] == s@[i as int]);
                assert(!('0' <= t[i - off] <= '9'));
                assert(!all_digits(t));
            }
            return None;
        }
        let dv = (d - 48) as usize;
        proof {
            assert('0' <= t[i - off] <= '9');
            assert(dv == t[i - off] as int - '0' as int);
            lemma_digits_val_take_succ(t, i - off);
            assert(all_digits(t.take(i - off + 1)));
        }
        if val > (usize::MAX - dv) / 10 {
            proof {
                let m = (usize::MAX - dv) as int;
                assert(m - m % 10 == 10 * (m / 10));
                assert(val * 10 + dv > usize::MAX);
                if all_digits(t) {
                    lemma_digits_val_prefix_le(t, i - off + 1);
                    assert(digits_val(t) > usize::MAX);
                }
            }
            return None;
        }
        val = val * 10 + dv;
        i = i + 1;
    }
    proof {
        assert(t.take(n - off) =~= t);
    }
    Some(val)
}

/// The decimal text of a number is digits throughout and reads back as
/// the number itself.
pub proof fn lemma_dec_str_digits(n: int)
    requires
        n >= 0,
    ensures
        all_digits(dec_str(n)),
        digits_val(dec_str(n)) == n,
        dec_str(n).len() >= 1,
    decreases n,
{
    if n < 10 {
        assert(dec_str(n) =~= seq![digit_char(n)]);
        assert(dec_str(n).drop_last() =~= Seq::<char>::empty());
        assert(dec_str(n).last() == digit_char(n));
        assert(digit_char(n) as int - '0' as int == n);
        assert(digits_val(dec_str(n)) == digits_val(Seq::<char>::empty()) * 10 + n);
    } else {
        lemma_dec_str_digits(n / 10);
        let s = dec_str(n / 10).push(digit_char(n % 10));
        assert(s.drop_last() =~= dec_str(n / 10));
        assert(s.last() == digit_char(n % 10));
        assert forall|i: int| 0 <= i < s.len() implies '0' <= #[trigger] s[i] <= '9' by {
            if i < s.len() - 1 {
                assert(s[i] == dec_str(n / 10)[i]);
            }
        }
        assert(digit_char(n % 10) as int - '0' as int == n % 10);
        assert(digits_val(s) == digits_val(dec_str(n / 10)) * 10 + (n % 10));
        assert((n / 10) * 10 + n % 10 == n);
    }
}

/// A decimal text parses back to its number, as a selector segment does.
pub proof fn lemma_parse_index_dec_str(n: int)
    requires
        0 <= n <= usize::MAX,
    ensures
        parse_index(dec_str(n)) == Some(n),
{
    lemma_dec_str_digits(n);
    assert(dec_str(n)[0] != '+');
}

} // verus!
