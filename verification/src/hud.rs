//! The texts of the heads-up display: stock and money counters, the
//! hover line of a food container and the hotbar tooltip.

use vstd::prelude::*;
use crate::text::{append, chars_of, decimal, decimal_string, string_of};

verus! {

/// An integer written in decimal, with a leading `-` when negative.
pub open spec fn signed_decimal(n: int) -> Seq<char> {
    if n < 0 {
        seq!['-'] + decimal((-n) as nat)
    } else {
        decimal(n as nat)
    }
}

/// `n` in decimal (see `signed_decimal`).
pub fn int_string(n: i32) -> (s: String)
    ensures
        s@ == signed_decimal(n as int),
{
    if n < 0 {
        let m: i64 = -(n as i64);
        let mut s = String::new();
        append(&mut s, "-");
        let d = decimal_string(m as u64);
        append(&mut s, d.as_str());
        proof {
            reveal_strlit("-");
            assert(s@ =~= seq!['-'] + decimal((-n) as nat));
        }
        s
    } else {
        decimal_string(n as u64)
    }
}

/// A counter line of the display: `label`, a colon, a space and `value`
/// (`Food: 12`, `Money: 300`).
pub fn stat_text(label: &str, value: i32) -> (s: String)
    ensures
        s@ == label@ + ": "@ + signed_decimal(value as int),
{
    let mut s = string_of(&chars_of(label));
    append(&mut s, ": ");
    let v = int_string(value);
    append(&mut s, v.as_str());
    s
}

/// The line shown over a food container: its name, a colon, and its food
/// count over its capacity (`rack: 3/8`).
pub fn hover_text(food: i32, max: i32, name: &str) -> (s: String)
    ensures
        s@ == name@ + ": "@ + signed_decimal(food as int) + "/"@ + signed_decimal(max as int),
{
    let mut s = string_of(&chars_of(name));
    append(&mut s, ": ");
    let f = int_string(food);
    append(&mut s, f.as_str());
    append(&mut s, "/");
    let m = int_string(max);
    append(&mut s, m.as_str());
    s
}

/// An object's name as the hotbar tooltip shows it: each `_` becomes a
/// space.
pub fn display_name(name: &str) -> (s: String)
    ensures
        s@ == name@.map_values(|c: char| if c == '_' { ' ' } else { c }),
{
    let cs = chars_of(name);
    let mut out: Vec<char> = Vec::new();
    let mut i: usize = 0;
    while i < cs.len()
        invariant
            cs@ == name@,
            i <= cs@.len(),
            out@ == cs@.take(i as int).map_values(|c: char| if c == '_' { ' ' } else { c }),
        decreases cs@.len() - i,
    {
        let c = cs[i];
        if c == '_' {
            out.push(' ');
        } else {
            out.push(c);
        }
        proof {
            assert(cs@.take(i + 1) =~= cs@.take(i as int).push(c));
        }
        assert(out@ =~= cs@.take(i + 1).map_values(|c: char| if c == '_' { ' ' } else { c }));
        i = i + 1;
    }
    assert(cs@.take(cs@.len() as int) =~= cs@);
    string_of(&out)
}

} // verus!
