//! The load-generation plan: which request a traffic worker issues on each
//! step, given its mode and its random draws. Drawing the randomness,
//! opening connections and timing calls stay with the driver program.
use vstd::prelude::*;
use crate::store::str_equal;

verus! {

/// The character of one decimal digit.
pub open spec fn digit_char(d: nat) -> char {
    if d == 0 {
        '0'
    } else if d == 1 {
        '1'
    } else if d == 2 {
        '2'
    } else if d == 3 {
        '3'
    } else if d == 4 {
        '4'
    } else if d == 5 {
        '5'
    } else if d == 6 {
        '6'
    } else if d == 7 {
        '7'
    } else if d == 8 {
        '8'
    } else {
        '9'
    }
}

/// The decimal text of a number, without leading zeroes.
pub open spec fn spec_decimal(n: nat) -> Seq<char>
    decreases n,
{
    if n < 10 {
        seq![digit_char(n)]
    } else {
        spec_decimal(n / 10).push(digit_char(n % 10))
    }
}

/// The text of one decimal digit.
fn digit_str(d: u64) -> (s: &'static str)
    requires
        d < 10,
    ensures
        s@ == seq![digit_char(d as nat)],
{
    if d == 0 {
        proof {
            reveal_strlit("0");
            assert("0"@ =~= seq![digit_char(0)]);
        }
        "0"
    } else if d == 1 {
        proof {
            reveal_strlit("1");
            assert("1"@ =~= seq![digit_char(1)]);
        }
        "1"
    } else if d == 2 {
        proof {
            reveal_strlit("2");
            assert("2"@ =~= seq![digit_char(2)]);
        }
        "2"
    } else if d == 3 {
        proof {
            reveal_strlit("3");
            assert("3"@ =~= seq![digit_char(3)]);
        }
        "3"
    } else if d == 4 {
        proof {
            reveal_strlit("4");
            assert("4"@ =~= seq![digit_char(4)]);
        }
        "4"
    } else if d == 5 {
        proof {
            reveal_strlit("5");
            assert("5"@ =~= seq![digit_char(5)]);
        }
        "5"
    } else if d == 6 {
        proof {
            reveal_strlit("6");
            assert("6"@ =~= seq![digit_char(6)]);
        }
        "6"
    } else if d == 7 {
        proof {
            reveal_strlit("7");
            assert("7"@ =~= seq![digit_char(7)]);
        }
        "7"
    } else if d == 8 {
        proof {
            reveal_strlit("8");
            assert("8"@ =~= seq![digit_char(8)]);
        }
        "8"
    } else {
        proof {
            reveal_strlit("9");
            assert("9"@ =~= seq![digit_char(9)]);
        }
        "9"
    }
}

/// The decimal text of `n`.
pub fn u64_to_decimal(n: u64) -> (s: String)
    ensures
        s@ == spec_decimal(n as nat),
    decreases n,
{
    if n < 10 {
        String::from_str(digit_str(n))
    } else {
        let prefix = u64_to_decimal(n / 10);
        let out = prefix.concat(digit_str(n % 10));
        proof {
            assert((n / 10) as nat == n as nat / 10);
            assert((n % 10) as nat == n as nat % 10);
            assert(spec_decimal(n as nat / 10).push(digit_char(n as nat % 10)) =~= spec_decimal(
                n as nat / 10,
            ) + seq![digit_char(n as nat % 10)]);
        }
        out
    }
}

/// One planned request against the remote boundary.
pub enum BenchOp {
    SetCall { key: String, value: String },
    GetCall { key: String },
}

/// The write that a worker issues on step `op_index` with key draw `draw`.
pub open spec fn spec_set_call(op: BenchOp, draw: u32, op_index: usize) -> bool {
    op matches BenchOp::SetCall { key, value } && key@ == "key_"@ + spec_decimal(draw as nat)
        && value@ == "value_"@ + spec_decimal(op_index as nat)
}

/// The read that a worker issues with key draw `draw`: reads stay inside a
/// bounded synthetic key space to produce cache-like hit patterns.
pub open spec fn spec_get_call(op: BenchOp, draw: u32) -> bool {
    op matches BenchOp::GetCall { key } && key@ == "key_"@ + spec_decimal((draw % 10000) as nat)
}

/// Plan one operation. The mode picks writes, reads or a mix; in the mixed
/// mode `favor_write` is the outcome of the driver's weighted coin (true
/// seven times in ten). A mode that names no operation plans nothing.
pub fn plan_operation(mode: &str, favor_write: bool, draw: u32, op_index: usize) -> (r: Option<
    BenchOp,
>)
    ensures
        mode@ == "set"@ ==> (r matches Some(op) && spec_set_call(op, draw, op_index)),
        mode@ == "get"@ ==> (r matches Some(op) && spec_get_call(op, draw)),
        mode@ == "mixed"@ && favor_write ==> (r matches Some(op) && spec_set_call(
            op,
            draw,
            op_index,
        )),
        mode@ == "mixed"@ && !favor_write ==> (r matches Some(op) && spec_get_call(op, draw)),
        mode@ != "set"@ && mode@ != "get"@ && mode@ != "mixed"@ ==> r is None,
{
    proof {
        reveal_strlit("set");
        reveal_strlit("get");
        reveal_strlit("mixed");
        assert("set"@[0] != "get"@[0]);
        assert("set"@ != "get"@);
        assert("set"@.len() != "mixed"@.len());
        assert("set"@ != "mixed"@);
        assert("get"@.len() != "mixed"@.len());
        assert("get"@ != "mixed"@);
    }
    if str_equal(mode, "set") || (str_equal(mode, "mixed") && favor_write) {
        let key = String::from_str("key_").concat(u64_to_decimal(draw as u64).as_str());
        let value = String::from_str("value_").concat(u64_to_decimal(op_index as u64).as_str());
        Some(BenchOp::SetCall { key, value })
    } else if str_equal(mode, "get") || str_equal(mode, "mixed") {
        let bounded = draw % 10000;
        let key = String::from_str("key_").concat(u64_to_decimal(bounded as u64).as_str());
        Some(BenchOp::GetCall { key })
    } else {
        None
    }
}

} // verus!
