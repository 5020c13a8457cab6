//! Composite labels for virtual nodes.
//!
//! Every virtual replica of a physical node is identified by a composite
//! label: the node's identifier, an underscore, and the replica index written
//! in decimal. The label is what gets hashed to a ring position, so the same
//! (node, replica) pair must always produce the same label.

use vstd::prelude::*;
use vstd::string::StringExecFns;

verus! {

/// The character for one decimal digit value.
pub open spec fn digit_char(d: int) -> char {
    if d == 0 {
        '0'
    } else if d == 1 {
        '1'
    } else if d == 2 {
        '2'
    } else if d == 3 {
        '3'
    } else if d == 4 {
        '4'
    } else if d == 5 {
        '5'
    } else if d == 6 {
        '6'
    } else if d == 7 {
        '7'
    } else if d == 8 {
        '8'
    } else {
        '9'
    }
}

/// The decimal representation of `n`: most significant digit first, no
/// leading zeros (a single `'0'` for zero itself).
pub open spec fn dec_rep(n: nat) -> Seq<char>
    decreases n,
{
    if n < 10 {
        seq![digit_char(n as int)]
    } else {
        dec_rep(n / 10) + seq![digit_char((n % 10) as int)]
    }
}

/// The composite label of a virtual node: node identifier, underscore,
/// replica index in decimal.
pub open spec fn vnode_label_spec(node: Seq<char>, replica: nat) -> Seq<char> {
    node + seq!['_'] + dec_rep(replica)
}

/// The one-character string for a decimal digit value.
fn digit_str(d: usize) -> (r: &'static str)
    requires
        d < 10,
    ensures
        r@ == seq![digit_char(d as int)],
{
    let r = if d == 0 {
        "0"
    } else if d == 1 {
        "1"
    } else if d == 2 {
        "2"
    } else if d == 3 {
        "3"
    } else if d == 4 {
        "4"
    } else if d == 5 {
        "5"
    } else if d == 6 {
        "6"
    } else if d == 7 {
        "7"
    } else if d == 8 {
        "8"
    } else {
        "9"
    };
    proof {
        reveal_strlit("0");
        reveal_strlit("1");
        reveal_strlit("2");
        reveal_strlit("3");
        reveal_strlit("4");
        reveal_strlit("5");
        reveal_strlit("6");
        reveal_strlit("7");
        reveal_strlit("8");
        reveal_strlit("9");
        assert(r@ =~= seq![digit_char(d as int)]);
    }
    r
}

/// Appends the decimal representation of `n` to `s`.
fn push_decimal(s: &mut String, n: usize)
    ensures
        final(s)@ == old(s)@ + dec_rep(n as nat),
    decreases n,
{
    let ghost start = s@;
    if n >= 10 {
        push_decimal(s, n / 10);
    }
    let d = n % 10;
    s.append(digit_str(d));
    proof {
        assert(s@ =~= start + dec_rep(n as nat));
    }
}

/// Builds the composite label "node_replica" that names one virtual node.
pub fn vnode_label(node: &str, replica: usize) -> (r: String)
    ensures
        r@ == vnode_label_spec(node@, replica as nat),
{
    let mut s = String::from_str(node);
    s.append("_");
    proof {
        reveal_strlit("_");
    }
    push_decimal(&mut s, replica);
    proof {
        assert(s@ =~= vnode_label_spec(node@, replica as nat));
    }
    s
}

} // verus!
