use vstd::prelude::*;
use vstd::string::StrSliceExecFns;
use vstd::utf8::encode_utf8;

verus! {

/// A numeral symbol and the value it stands for.
pub struct RomanNumeral {
    symbol: &'static str,
    value: u128,
}

/// How many symbols the numeral table holds.
pub const NUMERAL_COUNT: usize = 25;

/// The numeral symbols with their values, largest value first; a symbol with a `k` stands
/// for a thousand times the symbol without it.
pub open spec fn numeral_table() -> Seq<(Seq<char>, nat)> {
    seq![
        (seq!['M', 'k'], 1_000_000),
        (seq!['C', 'M', 'k'], 900_000),
        (seq!['D', 'k'], 500_000),
        (seq!['C', 'D', 'k'], 400_000),
        (seq!['C', 'k'], 100_000),
        (seq!['X', 'C', 'k'], 90_000),
        (seq!['L', 'k'], 50_000),
        (seq!['X', 'L', 'k'], 40_000),
        (seq!['X', 'k'], 10_000),
        (seq!['I', 'X', 'k'], 9_000),
        (seq!['V', 'k'], 5_000),
        (seq!['I', 'V', 'k'], 4_000),
        (seq!['M'], 1_000),
        (seq!['C', 'M'], 900),
        (seq!['D'], 500),
        (seq!['C', 'D'], 400),
        (seq!['C'], 100),
        (seq!['X', 'C'], 90),
        (seq!['L'], 50),
        (seq!['X', 'L'], 40),
        (seq!['X'], 10),
        (seq!['I', 'X'], 9),
        (seq!['V'], 5),
        (seq!['I', 'V'], 4),
        (seq!['I'], 1),
    ]
}

/// Whether the bytes `b` start with the ASCII characters `p`.
pub open spec fn starts_with(b: Seq<u8>, p: Seq<char>) -> bool {
    p.len() <= b.len() && forall|j: int| 0 <= j < p.len() ==> b[j] as char == p[j]
}

/// The first symbol of the table, from index `i` on, that `b` starts with.
pub open spec fn first_match_from(b: Seq<u8>, i: int) -> Option<int>
    decreases NUMERAL_COUNT - i,
{
    if i < 0 || i >= NUMERAL_COUNT {
        None
    } else if starts_with(b, numeral_table()[i].0) {
        Some(i)
    } else {
        first_match_from(b, i + 1)
    }
}

/// The value of a numeral: the first symbol of the table that starts the text counts, and
/// the rest of the text is read the same way; where no symbol starts the text, the rest
/// counts nothing.
pub open spec fn roman_value(b: Seq<u8>) -> nat
    decreases b.len(),
{
    match first_match_from(b, 0) {
        Some(i) => {
            let k = numeral_table()[i].0.len();
            if 1 <= k <= b.len() {
                numeral_table()[i].1 + roman_value(b.subrange(k as int, b.len() as int))
            } else {
                0
            }
        },
        None => 0,
    }
}

fn numeral(i: usize) -> (r: RomanNumeral)
    requires
        i < NUMERAL_COUNT,
    ensures
        r.symbol@ == numeral_table()[i as int].0,
        r.value == numeral_table()[i as int].1,
{
    match i {
        0 => {
            proof {
                reveal_strlit("Mk");
            }
            RomanNumeral { symbol: "Mk", value: 1_000_000 }
        },
        1 => {
            proof {
                reveal_strlit("CMk");
            }
            RomanNumeral { symbol: "CMk", value: 900_000 }
        },
        2 => {
            proof {
                reveal_strlit("Dk");
            }
            RomanNumeral { symbol: "Dk", value: 500_000 }
        },
        3 => {
            proof {
                reveal_strlit("CDk");
            }
            RomanNumeral { symbol: "CDk", value: 400_000 }
        },
        4 => {
            proof {
                reveal_strlit("Ck");
            }
            RomanNumeral { symbol: "Ck", value: 100_000 }
        },
        5 => {
            proof {
                reveal_strlit("XCk");
            }
            RomanNumeral { symbol: "XCk", value: 90_000 }
        },
        6 => {
            proof {
                reveal_strlit("Lk");
            }
            RomanNumeral { symbol: "Lk", value: 50_000 }
        },
        7 => {
            proof {
                reveal_strlit("XLk");
            }
            RomanNumeral { symbol: "XLk", value: 40_000 }
        },
        8 => {
            proof {
                reveal_strlit("Xk");
            }
            RomanNumeral { symbol: "Xk", value: 10_000 }
        },
        9 => {
            proof {
                reveal_strlit("IXk");
            }
            RomanNumeral { symbol: "IXk", value: 9_000 }
        },
        10 => {
            proof {
                reveal_strlit("Vk");
            }
            RomanNumeral { symbol: "Vk", value: 5_000 }
        },
        11 => {
            proof {
                reveal_strlit("IVk");
            }
            RomanNumeral { symbol: "IVk", value: 4_000 }
        },
        12 => {
            proof {
                reveal_strlit("M");
            }
            RomanNumeral { symbol: "M", value: 1_000 }
        },
        13 => {
            proof {
                reveal_strlit("CM");
            }
            RomanNumeral { symbol: "CM", value: 900 }
        },
        14 => {
            proof {
                reveal_strlit("D");
            }
            RomanNumeral { symbol: "D", value: 500 }
        },
        15 => {
            proof {
                reveal_strlit("CD");
            }
            RomanNumeral { symbol: "CD", value: 400 }
        },
        16 => {
            proof {
                reveal_strlit("C");
            }
            RomanNumeral { symbol: "C", value: 100 }
        },
        17 => {
            proof {
                reveal_strlit("XC");
            }
            RomanNumeral { symbol: "XC", value: 90 }
        },
        18 => {
            proof {
                reveal_strlit("L");
            }
            RomanNumeral { symbol: "L", value: 50 }
        },
        19 => {
            proof {
                reveal_strlit("XL");
            }
            RomanNumeral { symbol: "XL", value: 40 }
        },
        20 => {
            proof {
                reveal_strlit("X");
            }
            RomanNumeral { symbol: "X", value: 10 }
        },
        21 => {
            proof {
                reveal_strlit("IX");
            }
            RomanNumeral { symbol: "IX", value: 9 }
        },
        22 => {
            proof {
                reveal_strlit("V");
            }
            RomanNumeral { symbol: "V", value: 5 }
        },
        23 => {
            proof {
                reveal_strlit("IV");
            }
            RomanNumeral { symbol: "IV", value: 4 }
        },
        _ => {
            proof {
                reveal_strlit("I");
            }
            RomanNumeral { symbol: "I", value: 1 }
        },
    }
}

/// Whether `b[pos..end]` starts with the symbol of `n`.
fn symbol_at(n: &RomanNumeral, b: &[u8], pos: usize, end: usize) -> (r: bool)
    requires
        pos <= end <= b@.len(),
    ensures
        r == starts_with(b@.subrange(pos as int, end as int), n.symbol@),
{
    let ghost sym = n.symbol@;
    let ghost rest = b@.subrange(pos as int, end as int);
    let len = n.symbol.unicode_len();
    if len > end - pos {
        return false;
    }
    let mut j: usize = 0;
    while j < len
        invariant
            len == n.symbol@.len(),
            sym == n.symbol@,
            rest == b@.subrange(pos as int, end as int),
            pos <= end <= b@.len(),
            j <= len <= end - pos,
            forall|t: int| 0 <= t < j ==> rest[t] as char == sym[t],
        decreases len - j,
    {
        let c = n.symbol.get_char(j);
        if b[pos + j] as char != c {
            assert(rest[j as int] as char != sym[j as int]);
            return false;
        }
        j = j + 1;
    }
    true
}

/// The index of the first symbol that starts `b[pos..end]`, its value and its length, or
/// `NUMERAL_COUNT` where no symbol does.
fn first_match(b: &[u8], pos: usize, end: usize) -> (r: (usize, u128, usize))
    requires
        pos <= end <= b@.len(),
    ensures
        r.0 <= NUMERAL_COUNT,
        r.0 < NUMERAL_COUNT ==> first_match_from(b@.subrange(pos as int, end as int), 0)
            == Some(r.0 as int) && r.1 == numeral_table()[r.0 as int].1 && r.2 == numeral_table()[r.0 as int].0.len(),
        r.0 == NUMERAL_COUNT ==> first_match_from(b@.subrange(pos as int, end as int), 0)
            is None,
{
    let ghost rest = b@.subrange(pos as int, end as int);
    let mut i: usize = 0;
    while i < NUMERAL_COUNT
        invariant
            i <= NUMERAL_COUNT,
            rest == b@.subrange(pos as int, end as int),
            pos <= end <= b@.len(),
            first_match_from(rest, 0) == first_match_from(rest, i as int),
        decreases NUMERAL_COUNT - i,
    {
        let n = numeral(i);
        if symbol_at(&n, b, pos, end) {
            return (i, n.value, n.symbol.unicode_len());
        }
        i = i + 1;
    }
    (NUMERAL_COUNT, 0, 0)
}

/// Reads the ASCII letters `b[start..end]` as a numeral.
pub(crate) fn numeral_value(b: &[u8], start: usize, end: usize) -> (r: u128)
    requires
        start <= end <= b@.len(),
    ensures
        r == roman_value(b@.subrange(start as int, end as int)),
{
    let ghost whole = b@.subrange(start as int, end as int);
    let mut total: u128 = 0;
    let mut pos = start;
    while pos < end
        invariant
            start <= pos <= end <= b@.len(),
            whole == b@.subrange(start as int, end as int),
            total <= (pos - start) * 1_000_000,
            total + roman_value(b@.subrange(pos as int, end as int)) == roman_value(whole),
        decreases end - pos,
    {
        let ghost rest = b@.subrange(pos as int, end as int);
        let (i, value, len) = first_match(b, pos, end);
        if i == NUMERAL_COUNT || len == 0 || len > end - pos {
            assert(roman_value(rest) == 0);
            return total;
        }
        assert(value <= 1_000_000);
        assert(rest.subrange(len as int, rest.len() as int) =~= b@.subrange(pos + len, end as int));
        total = total + value;
        pos = pos + len;
    }
    total
}

/// The value of a numeral written in ASCII letters.
pub fn from_roman(roman: &str) -> (r: u128)
    ensures
        r == roman_value(encode_utf8(roman@)),
{
    let b = roman.as_bytes();
    assert(b@.subrange(0, b@.len() as int) =~= b@);
    numeral_value(b, 0, b.len())
}

} // verus!
