//! The first header line, for any version number.
use vstd::prelude::*;
use vstd::string::{StrSliceExecFns, StringExecFns};

verus! {

/// The decimal digit character for `d < 10`.
pub open spec fn digit_char(d: nat) -> char {
    "0123456789"@[d as int]
}

/// `n` in decimal, without leading zeros.
pub open spec fn decimal(n: nat) -> Seq<char>
    decreases n,
{
    if n < 10 {
        seq![digit_char(n)]
    } else {
        decimal(n / 10).push(digit_char(n % 10))
    }
}

/// Appends `n` in decimal.
fn push_decimal(s: &mut String, n: u32)
    ensures
        final(s)@ == old(s)@ + decimal(n as nat),
    decreases n,
{
    proof {
        reveal_strlit("0123456789");
    }
    if n >= 10 {
        push_decimal(s, n / 10);
    }
    let d = (n % 10) as usize;
    let one = "0123456789".substring_char(d, d + 1);
    s.append(one);
    proof {
        assert(one@ =~= seq![digit_char(d as nat)]);
        assert(final(s)@ =~= old(s)@ + decimal(n as nat));
    }
}

/// The first header line for a version number: `clog @<version_id>`.
pub fn init(version_id: u32) -> (r: String)
    ensures
        r@ == "clog @"@ + decimal(version_id as nat),
{
    let mut line = "clog @".to_owned();
    push_decimal(&mut line, version_id);
    line
}

} // verus!
