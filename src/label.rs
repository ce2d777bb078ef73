//! The text that annotates each vertex: `(x, y) / angle°`.
use vstd::prelude::*;
use crate::geometry::FULL_TURN;

verus! {

/// The decimal digit `d` as a character.
pub open spec fn digit_char(d: nat) -> char {
    if d == 0 {
        '0'
    } else if d == 1 {
        '1'
    } else if d == 2 {
        '2'
    } else if d == 3 {
        '3'
    } else if d == 4 {
        '4'
    } else if d == 5 {
        '5'
    } else if d == 6 {
        '6'
    } else if d == 7 {
        '7'
    } else if d == 8 {
        '8'
    } else {
        '9'
    }
}

/// `n` written in decimal, without leading zeros.
pub open spec fn decimal(n: nat) -> Seq<char>
    decreases n,
{
    if n < 10 {
        seq![digit_char(n)]
    } else {
        decimal(n / 10).push(digit_char(n % 10))
    }
}

/// `v` written in decimal, with a leading `-` when negative.
pub open spec fn signed_decimal(v: int) -> Seq<char> {
    if v < 0 {
        seq!['-'] + decimal((-v) as nat)
    } else {
        decimal(v as nat)
    }
}

/// An angle of `angle` millidegrees rounded to tenths of a degree, halves up.
pub open spec fn tenths_of(angle: nat) -> nat {
    (angle + 50) / 100
}

/// The text `(x, y) / w.t°` for whole degrees `w` and tenth `t`.
pub open spec fn label_of_parts(x: int, y: int, whole: nat, tenth: nat) -> Seq<char> {
    seq!['('] + signed_decimal(x) + seq![',', ' '] + signed_decimal(y) + seq![')', ' ', '/', ' ']
        + decimal(whole) + seq!['.'] + decimal(tenth) + seq!['\u{b0}']
}

/// The label of a vertex at pixel offset `(x, y)` from the centre whose angle is
/// `angle` millidegrees, the angle shown to one decimal place.
pub open spec fn label_spec(x: int, y: int, angle: nat) -> Seq<char> {
    label_of_parts(x, y, tenths_of(angle) / 10, tenths_of(angle) % 10)
}

/// Relies on `format!` writing integers in decimal, with a `-` before negative
/// values and no leading zeros.
#[verifier::external_body]
fn format_label(x: i64, y: i64, whole: u64, tenth: u64) -> (r: String)
    ensures
        r@ == label_of_parts(x as int, y as int, whole as nat, tenth as nat),
{
    format!("({}, {}) / {}.{}\u{b0}", x, y, whole, tenth)
}

/// The text that annotates a vertex: its coordinates as whole numbers and its
/// angle, given in millidegrees, in degrees to one decimal place.
pub fn vertex_label(x: i64, y: i64, angle: u64) -> (r: String)
    requires
        angle < FULL_TURN,
    ensures
        r@ == label_spec(x as int, y as int, angle as nat),
{
    let tenths: u64 = (angle + 50) / 100;
    format_label(x, y, tenths / 10, tenths % 10)
}

} // verus!
