//! The names that the compiler gives to temporaries and registers.

use vstd::prelude::*;
use vstd::string::StringExecFns;

verus! {

/// The character that writes the digit `n`.
pub open spec fn digit(n: nat) -> char
    recommends
        n < 10,
{
    (48 + n) as char
}

/// `n` in decimal, without leading zeros.
pub open spec fn decimal(n: nat) -> Seq<char>
    decreases n,
{
    if n < 10 {
        seq![digit(n)]
    } else {
        decimal(n / 10).push(digit(n % 10))
    }
}

/// The name of the temporary numbered `n`.
pub open spec fn temp_name(n: nat) -> Seq<char> {
    "__temp_"@ + decimal(n)
}

/// The name of the member that holds the current value of register `n`.
pub open spec fn reg_value_name(n: nat) -> Seq<char> {
    "__reg"@ + decimal(n)
}

/// The name of the member that holds the next value of register `n`.
pub open spec fn reg_next_name(n: nat) -> Seq<char> {
    reg_value_name(n) + "_next"@
}

/// Returns the text of one digit.
fn digit_str(n: u64) -> (text: &'static str)
    requires
        n < 10,
    ensures
        text@ == seq![digit(n as nat)],
{
    proof {
        reveal_strlit("0");
        reveal_strlit("1");
        reveal_strlit("2");
        reveal_strlit("3");
        reveal_strlit("4");
        reveal_strlit("5");
        reveal_strlit("6");
        reveal_strlit("7");
        reveal_strlit("8");
        reveal_strlit("9");
    }
    match n {
        0 => "0",
        1 => "1",
        2 => "2",
        3 => "3",
        4 => "4",
        5 => "5",
        6 => "6",
        7 => "7",
        8 => "8",
        _ => "9",
    }
}

/// Returns `n` in decimal.
pub fn decimal_string(n: u64) -> (text: String)
    ensures
        text@ == decimal(n as nat),
    decreases n,
{
    if n < 10 {
        String::from_str(digit_str(n))
    } else {
        let mut text = decimal_string(n / 10);
        text.append(digit_str(n % 10));
        text
    }
}

/// Returns the name of the temporary numbered `n`.
pub fn temp_name_string(n: u32) -> (name: String)
    ensures
        name@ == temp_name(n as nat),
{
    let mut name = String::from_str("__temp_");
    name.append(decimal_string(n as u64).as_str());
    name
}

/// Returns the name of the member that holds the current value of register `n`.
pub fn reg_value_name_string(n: usize) -> (name: String)
    ensures
        name@ == reg_value_name(n as nat),
{
    let mut name = String::from_str("__reg");
    name.append(decimal_string(n as u64).as_str());
    name
}

/// Returns the name of the member that holds the next value of the register
/// whose current value `value_name` holds.
pub fn reg_next_name_string(value_name: &String) -> (name: String)
    ensures
        name@ == value_name@ + "_next"@,
{
    let mut name = String::from_str(value_name.as_str());
    name.append("_next");
    name
}

/// Numbers that are written alike are equal.
pub proof fn decimal_is_injective(a: nat, b: nat)
    requires
        decimal(a) == decimal(b),
    ensures
        a == b,
    decreases a,
{
    let da = decimal(a);
    let db = decimal(b);
    decimal_digits(a);
    decimal_digits(b);
    assert(da.last() == db.last());
    if a < 10 || b < 10 {
        if a >= 10 {
            decimal_digits(a / 10);
        }
        if b >= 10 {
            decimal_digits(b / 10);
        }
        assert(da.len() == db.len());
    } else {
        assert(da.drop_last() =~= decimal(a / 10));
        assert(db.drop_last() =~= decimal(b / 10));
        decimal_is_injective(a / 10, b / 10);
    }
}

/// A number in decimal is made of digits, at least one.
proof fn decimal_digits(n: nat)
    ensures
        decimal(n).len() > 0,
        decimal(n).last() == digit(n % 10),
        forall|i: int| 0 <= i < decimal(n).len() ==> 48 <= #[trigger] decimal(n)[i] as int <= 57,
    decreases n,
{
    if n >= 10 {
        decimal_digits(n / 10);
    }
}

/// Temporaries with different numbers have different names.
pub proof fn temp_names_differ(a: nat, b: nat)
    requires
        a != b,
    ensures
        temp_name(a) != temp_name(b),
{
    if temp_name(a) == temp_name(b) {
        let p = "__temp_"@;
        assert(temp_name(a).skip(p.len() as int) =~= decimal(a));
        assert(temp_name(b).skip(p.len() as int) =~= decimal(b));
        decimal_is_injective(a, b);
    }
}

/// The names of two registers' current and next values are four different names;
/// those of one register are two.
pub proof fn reg_names_differ(a: nat, b: nat)
    ensures
        a != b ==> reg_value_name(a) != reg_value_name(b),
        a != b ==> reg_next_name(a) != reg_next_name(b),
        reg_value_name(a) != reg_next_name(b),
{
    let p = "__reg"@;
    let s = "_next"@;
    reveal_strlit("_next");
    decimal_digits(a);
    assert(reg_value_name(a).skip(p.len() as int) =~= decimal(a));
    assert(reg_value_name(b).skip(p.len() as int) =~= decimal(b));
    if reg_value_name(a) == reg_value_name(b) {
        decimal_is_injective(a, b);
    }
    let na = reg_next_name(a);
    let nb = reg_next_name(b);
    assert(na.take(na.len() - s.len()) =~= reg_value_name(a));
    assert(nb.take(nb.len() - s.len()) =~= reg_value_name(b));
    assert(nb.last() == 't');
    assert(reg_value_name(a).last() == decimal(a).last());
}

} // verus!
