//! Numbers as text.
use vstd::prelude::*;
use vstd::string::*;

verus! {

/// The ten digits.
pub open spec fn digits() -> Seq<char> {
    "0123456789"@
}

/// `n` in decimal notation.
pub open spec fn decimal(n: nat) -> Seq<char>
    decreases n,
{
    if n < 10 {
        seq![digits()[n as int]]
    } else {
        decimal(n / 10) + seq![digits()[(n % 10) as int]]
    }
}

/// `n` in decimal notation.
pub fn decimal_string(n: usize) -> (s: String)
    ensures
        s@ == decimal(n as nat),
{
    wide_decimal_string(n as u64)
}

/// `n` in decimal notation, with a minus sign before it where it is
/// negative.
pub open spec fn signed_decimal(n: int) -> Seq<char> {
    if n < 0 {
        seq!['-'] + decimal((-n) as nat)
    } else {
        decimal(n as nat)
    }
}

/// `n` in decimal notation.
pub fn integer_string(n: i64) -> (s: String)
    ensures
        s@ == signed_decimal(n as int),
{
    if n < 0 {
        let magnitude: u64 = (-(n + 1)) as u64 + 1;
        proof {
            reveal_strlit("-");
        }
        let s = String::from_str("-").concat(wide_decimal_string(magnitude).as_str());
        assert(s@ =~= signed_decimal(n as int));
        s
    } else {
        wide_decimal_string(n as u64)
    }
}

/// `n` in decimal notation.
pub fn wide_decimal_string(n: u64) -> (s: String)
    ensures
        s@ == decimal(n as nat),
{
    let table = "0123456789";
    proof {
        reveal_strlit("0123456789");
    }
    let mut tail = String::new();
    let mut k: u64 = n;
    while k >= 10
        invariant
            table@ == digits(),
            table@.len() == 10,
            decimal(n as nat) == decimal(k as nat) + tail@,
        decreases k,
    {
        let d = k % 10;
        let digit = String::from_str(table.substring_char(d as usize, d as usize + 1));
        proof {
            assert(digit@ =~= seq![digits()[d as int]]);
            assert(decimal(k as nat) == decimal((k / 10) as nat) + seq![digits()[d as int]]);
            assert(decimal(n as nat) =~= decimal((k / 10) as nat) + (digit@ + tail@));
        }
        tail = digit.concat(tail.as_str());
        k = k / 10;
    }
    let digit = String::from_str(table.substring_char(k as usize, k as usize + 1));
    proof {
        assert(digit@ =~= seq![digits()[k as int]]);
        assert(decimal(n as nat) =~= digit@ + tail@);
    }
    digit.concat(tail.as_str())
}

/// The code of a character, with that of the small letter for a capital
/// letter of ASCII.
pub open spec fn lower_code(c: char) -> int {
    if 'A' <= c <= 'Z' {
        c as int + 32
    } else {
        c as int
    }
}

/// The codes of the characters of `s`, capital letters of ASCII taken
/// as small ones.
pub open spec fn lowered(s: Seq<char>) -> Seq<int> {
    Seq::new(s.len(), |i: int| lower_code(s[i]))
}

fn code_of(c: char) -> (r: u32)
    ensures
        r == lower_code(c),
{
    if 'A' <= c && c <= 'Z' {
        c as u32 + 32
    } else {
        c as u32
    }
}

/// Whether the two texts are the same but for the case of the letters
/// of ASCII.
pub fn eq_ignore_case(a: &str, b: &str) -> (r: bool)
    ensures
        r == (lowered(a@) == lowered(b@)),
{
    let n = a.unicode_len();
    if n != b.unicode_len() {
        assert(lowered(a@).len() != lowered(b@).len());
        return false;
    }
    let mut i: usize = 0;
    while i < n
        invariant
            i <= n,
            n == a@.len(),
            n == b@.len(),
            forall|j: int| 0 <= j < i ==> lower_code(a@[j]) == lower_code(b@[j]),
        decreases n - i,
    {
        if code_of(a.get_char(i)) != code_of(b.get_char(i)) {
            assert(lowered(a@)[i as int] != lowered(b@)[i as int]);
            return false;
        }
        i += 1;
    }
    assert(lowered(a@) =~= lowered(b@));
    true
}

} // verus!
