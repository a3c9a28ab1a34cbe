//! Names of folder backups: the folder's name, an underscore, and the time of
//! the backup in seconds.
use vstd::prelude::*;

verus! {

/// The decimal digits, by value.
pub open spec fn decimal_table() -> Seq<char> {
    seq!['0', '1', '2', '3', '4', '5', '6', '7', '8', '9']
}

/// `n` written in decimal, without leading zeros (`0` for zero).
pub open spec fn decimal(n: u64) -> Seq<char>
    decreases n,
{
    if n < 10 {
        seq![decimal_table()[n as int]]
    } else {
        decimal(n / 10).push(decimal_table()[(n % 10) as int])
    }
}

/// `n` written in decimal.
pub fn decimal_text(n: u64) -> (r: String)
    ensures
        r@ == decimal(n),
{
    let digits = "0123456789";
    proof {
        reveal_strlit("0123456789");
        assert(digits@ =~= decimal_table());
    }
    let mut out = String::new();
    let mut rest = n;
    loop
        invariant_except_break
            decimal(n) == decimal(rest) + out@,
        invariant
            digits@ == decimal_table(),
        ensures
            decimal(n) == out@,
        decreases rest,
    {
        let d = (rest % 10) as usize;
        let digit = digits.substring_char(d, d + 1);
        assert(digit@ =~= seq![decimal_table()[d as int]]);
        let ghost before = out@;
        out = String::from_str(digit).concat(out.as_str());
        if rest < 10 {
            assert(decimal(n) =~= out@);
            break;
        }
        assert(decimal(rest) == decimal(rest / 10).push(decimal_table()[d as int]));
        assert(decimal(rest / 10).push(decimal_table()[d as int]) + before =~= decimal(rest / 10)
            + out@);
        rest = rest / 10;
    }
    out
}

/// The name of the backup of the folder `name` made at `seconds` after the
/// Unix epoch: the folder's name, `_` and the seconds in decimal.
pub fn folder_backup_name(name: &str, seconds: u64) -> (r: String)
    ensures
        r@ == name@ + seq!['_'] + decimal(seconds),
{
    let separator = "_";
    proof {
        reveal_strlit("_");
    }
    let r = String::from_str(name).concat(separator).concat(decimal_text(seconds).as_str());
    assert(r@ =~= name@ + seq!['_'] + decimal(seconds));
    r
}

} // verus!
