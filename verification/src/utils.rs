//! Column-name coordinates: the letter label drawn over a column, and
//! the column index parsed back from a typed label.

use vstd::prelude::*;
use vstd::string::*;

verus! {

/// The letter of one base-26 digit: 0 is `a`, 25 is `z`.
pub open spec fn digit_char(d: int) -> char {
    if d == 0 {
        'a'
    } else if d == 1 {
        'b'
    } else if d == 2 {
        'c'
    } else if d == 3 {
        'd'
    } else if d == 4 {
        'e'
    } else if d == 5 {
        'f'
    } else if d == 6 {
        'g'
    } else if d == 7 {
        'h'
    } else if d == 8 {
        'i'
    } else if d == 9 {
        'j'
    } else if d == 10 {
        'k'
    } else if d == 11 {
        'l'
    } else if d == 12 {
        'm'
    } else if d == 13 {
        'n'
    } else if d == 14 {
        'o'
    } else if d == 15 {
        'p'
    } else if d == 16 {
        'q'
    } else if d == 17 {
        'r'
    } else if d == 18 {
        's'
    } else if d == 19 {
        't'
    } else if d == 20 {
        'u'
    } else if d == 21 {
        'v'
    } else if d == 22 {
        'w'
    } else if d == 23 {
        'x'
    } else if d == 24 {
        'y'
    } else {
        'z'
    }
}

/// The label of a column index: its plain base-26 digits, most
/// significant first, each one written `a`..`z`.
pub open spec fn column_name(n: int) -> Seq<char>
    decreases n,
{
    if n < 26 {
        seq![digit_char(n)]
    } else {
        column_name(n / 26).push(digit_char(n % 26))
    }
}

/// The letters of a digit list read back to front.
pub open spec fn rev_chars(ds: Seq<usize>) -> Seq<char>
    decreases ds.len(),
{
    if ds.len() == 0 {
        Seq::empty()
    } else {
        seq![digit_char(ds.last() as int)] + rev_chars(ds.drop_last())
    }
}

pub open spec fn is_ascii_letter(c: char) -> bool {
    (65 <= c as u32 && c as u32 <= 90) || (97 <= c as u32 && c as u32 <= 122)
}

pub open spec fn letter_val(c: char) -> int {
    c as u32 - 97
}

/// The value of the first `k` letters of a label: bijective base-26,
/// where every letter but the last counts from 1 rather than 0.
pub open spec fn column_prefix_value(s: Seq<char>, k: int) -> int
    decreases k,
{
    if k <= 0 {
        0
    } else {
        column_prefix_value(s, k - 1) * 26 + letter_val(s[k - 1]) + (if k - 1 < s.len() - 1 {
            1int
        } else {
            0int
        })
    }
}

pub open spec fn pow27(k: int) -> int
    decreases k,
{
    if k <= 0 {
        1
    } else {
        27 * pow27(k - 1)
    }
}

proof fn lemma_rev_chars_len(ds: Seq<usize>)
    ensures
        rev_chars(ds).len() == ds.len(),
    decreases ds.len(),
{
    if ds.len() > 0 {
        lemma_rev_chars_len(ds.drop_last());
    }
}

proof fn lemma_rev_chars_index(ds: Seq<usize>, j: int)
    requires
        0 <= j < ds.len(),
    ensures
        rev_chars(ds).len() == ds.len(),
        rev_chars(ds)[j] == digit_char(ds[ds.len() - 1 - j] as int),
    decreases ds.len(),
{
    lemma_rev_chars_len(ds);
    if j > 0 {
        lemma_rev_chars_index(ds.drop_last(), j - 1);
    }
}

proof fn lemma_prefix_value_bound(s: Seq<char>, k: int)
    requires
        0 <= k,
        forall|i: int| 0 <= i < k ==> 97 <= (#[trigger] s[i]) as u32 <= 122,
    ensures
        pow27(k) >= 1,
        0 <= column_prefix_value(s, k) < pow27(k),
    decreases k,
{
    if k > 0 {
        lemma_prefix_value_bound(s, k - 1);
        assert(column_prefix_value(s, k) < pow27(k)) by (nonlinear_arith)
            requires
                column_prefix_value(s, k) <= column_prefix_value(s, k - 1) * 26 + 26,
                0 <= column_prefix_value(s, k - 1) < pow27(k - 1),
                pow27(k) == 27 * pow27(k - 1),
                pow27(k - 1) >= 1,
        ;
    }
}

proof fn lemma_pow27_small(k: int)
    requires
        0 <= k <= 5,
    ensures
        pow27(k) <= 14348907,
{
    reveal_with_fuel(pow27, 8);
}

/// One base-26 digit as a printable one-letter string.
fn digit_str(d: usize) -> (r: &'static str)
    requires
        d < 26,
    ensures
        r@ == seq![digit_char(d as int)],
{
    let r: &'static str = match d {
        0 => "a",
        1 => "b",
        2 => "c",
        3 => "d",
        4 => "e",
        5 => "f",
        6 => "g",
        7 => "h",
        8 => "i",
        9 => "j",
        10 => "k",
        11 => "l",
        12 => "m",
        13 => "n",
        14 => "o",
        15 => "p",
        16 => "q",
        17 => "r",
        18 => "s",
        19 => "t",
        20 => "u",
        21 => "v",
        22 => "w",
        23 => "x",
        24 => "y",
        _ => "z",
    };
    proof {
        reveal_strlit("a");
        reveal_strlit("b");
        reveal_strlit("c");
        reveal_strlit("d");
        reveal_strlit("e");
        reveal_strlit("f");
        reveal_strlit("g");
        reveal_strlit("h");
        reveal_strlit("i");
        reveal_strlit("j");
        reveal_strlit("k");
        reveal_strlit("l");
        reveal_strlit("m");
        reveal_strlit("n");
        reveal_strlit("o");
        reveal_strlit("p");
        reveal_strlit("q");
        reveal_strlit("r");
        reveal_strlit("s");
        reveal_strlit("t");
        reveal_strlit("u");
        reveal_strlit("v");
        reveal_strlit("w");
        reveal_strlit("x");
        reveal_strlit("y");
        reveal_strlit("z");
    }
    r
}

/// The letter label of the zero-based column `num`: its base-26 digits,
/// most significant first.
#[verifier::loop_isolation(false)]
pub fn num_to_str_cord_name(num: usize) -> (r: String)
    ensures
        r@ == column_name(num as int),
{
    let mut digits: Vec<usize> = Vec::new();
    let mut d: usize = num;
    digits.push(d % 26);
    proof {
        assert(digits@.drop_last() =~= Seq::<usize>::empty());
        assert(rev_chars(digits@.drop_last()) =~= Seq::<char>::empty());
        assert(rev_chars(digits@) =~= seq![digit_char((num % 26) as int)]);
        if num / 26 > 0 {
            assert(column_name(num as int) =~= column_name(num as int / 26) + rev_chars(digits@));
        } else {
            assert(column_name(num as int) =~= rev_chars(digits@));
        }
    }
    d = d / 26;
    while d != 0
        invariant
            digits@.len() >= 1,
            forall|i: int| 0 <= i < digits@.len() ==> (#[trigger] digits@[i]) < 26,
            column_name(num as int) == (if d > 0 {
                column_name(d as int) + rev_chars(digits@)
            } else {
                rev_chars(digits@)
            }),
        decreases d,
    {
        let ghost dg = digits@;
        let nd = d % 26;
        digits.push(nd);
        proof {
            assert(digits@.drop_last() =~= dg);
            assert(rev_chars(digits@) =~= seq![digit_char(nd as int)] + rev_chars(dg));
            if d / 26 > 0 {
                assert(column_name(d as int) + rev_chars(dg) =~= column_name(d as int / 26) + (seq![
                    digit_char(nd as int),
                ] + rev_chars(dg)));
            } else {
                assert(column_name(d as int) + rev_chars(dg) =~= seq![digit_char(nd as int)]
                    + rev_chars(dg));
            }
        }
        d = d / 26;
    }
    let ghost rc = rev_chars(digits@);
    proof {
        lemma_rev_chars_len(digits@);
        assert(rc.take(0) =~= Seq::<char>::empty());
    }
    let mut s = String::new();
    let mut i: usize = digits.len();
    while i > 0
        invariant
            i <= digits@.len(),
            s@ == rc.take(digits@.len() - i),
        decreases i,
    {
        i = i - 1;
        let ds = digit_str(digits[i]);
        s.append(ds);
        proof {
            lemma_rev_chars_index(digits@, digits@.len() - 1 - i);
            assert(s@ =~= rc.take(digits@.len() - i));
        }
    }
    proof {
        assert(rc.take(digits@.len() as int) =~= rc);
    }
    s
}

/// The zero-based column index of a letter label: bijective base-26,
/// rejecting any character that is not an ASCII letter. Labels are
/// expected lower case, as the command loop hands them over.
#[verifier::loop_isolation(false)]
pub fn str_cord_name_to_num(str: String) -> (res: Result<usize, ()>)
    requires
        str@.len() <= 6,
        forall|i: int| 0 <= i < str@.len() ==> !(65 <= (#[trigger] str@[i]) as u32 <= 90),
    ensures
        res is Ok <==> (forall|i: int| 0 <= i < str@.len() ==> is_ascii_letter(#[trigger] str@[i])),
        res matches Ok(n) ==> n == column_prefix_value(str@, str@.len() as int),
{
    let count = str.as_str().unicode_len();
    let mut num: usize = 0;
    let mut idx: usize = 0;
    while idx < count
        invariant
            idx <= count,
            forall|i: int| 0 <= i < idx ==> 97 <= (#[trigger] str@[i]) as u32 <= 122,
            num == column_prefix_value(str@, idx as int),
        decreases count - idx,
    {
        let letter = str.as_str().get_char(idx);
        let v = letter as u32;
        if !((97 <= v && v <= 122) || (65 <= v && v <= 90)) {
            proof {
                assert(!is_ascii_letter(str@[idx as int]));
            }
            return Err(());
        }
        let mut p = (v - 97) as usize;
        let rank = count - idx - 1;
        if rank != 0 {
            p = p + 1;
        }
        proof {
            lemma_prefix_value_bound(str@, idx as int);
            lemma_pow27_small(idx as int);
        }
        num = num * 26 + p;
        idx = idx + 1;
    }
    proof {
        assert(forall|i: int| 0 <= i < str@.len() ==> is_ascii_letter(#[trigger] str@[i]));
    }
    Ok(num)
}

} // verus!
