//! The text that `print` writes for a line of values.
use vstd::prelude::*;

verus! {

pub open spec fn digit_of(d: nat) -> char {
    ((d % 10) + '0' as nat) as char
}

/// The decimal digits of `n`.
pub open spec fn nat_text(n: nat) -> Seq<char>
    decreases n,
{
    if n < 10 {
        seq![digit_of(n)]
    } else {
        nat_text(n / 10).push(digit_of(n % 10))
    }
}

/// `v` in decimal, with a `-` when it is negative.
pub open spec fn int_text(v: int) -> Seq<char> {
    if v < 0 {
        seq!['-'] + nat_text((-v) as nat)
    } else {
        nat_text(v as nat)
    }
}

/// Each value followed by one space.
pub open spec fn values_text(vs: Seq<i64>) -> Seq<char>
    decreases vs.len(),
{
    if vs.len() == 0 {
        seq![]
    } else {
        values_text(vs.drop_last()) + int_text(vs.last() as int) + seq![' ']
    }
}

/// The line that `print` writes: each value followed by a space, then a newline.
pub open spec fn line_text(vs: Seq<i64>) -> Seq<char> {
    values_text(vs).push('\n')
}

fn push_digits(n: u64, out: &mut Vec<char>)
    ensures
        final(out)@ == old(out)@ + nat_text(n as nat),
    decreases n,
{
    if n >= 10 {
        push_digits(n / 10, out);
    }
    out.push(digit(n % 10));
}

fn digit(d: u64) -> (c: char)
    requires
        d < 10,
    ensures
        c == digit_of(d as nat),
{
    match d {
        0 => '0',
        1 => '1',
        2 => '2',
        3 => '3',
        4 => '4',
        5 => '5',
        6 => '6',
        7 => '7',
        8 => '8',
        _ => '9',
    }
}

/// Relies on `String: FromIterator<&char>`: the string of the characters, in order.
#[verifier::external_body]
fn string_from_chars(cs: &Vec<char>) -> (r: String)
    ensures
        r@ == cs@,
{
    cs.iter().collect()
}

/// The text that `print` writes for `values`, newline included.
pub fn render_line(values: &Vec<i64>) -> (r: String)
    ensures
        r@ == line_text(values@),
{
    let mut out: Vec<char> = Vec::new();
    let mut i: usize = 0;
    while i < values.len()
        invariant
            i <= values@.len(),
            out@ == values_text(values@.subrange(0, i as int)),
        decreases values@.len() - i,
    {
        let v = values[i];
        let ghost before = out@;
        if v < 0 {
            out.push('-');
            let m: u64 = ((-(v as i128)) as u64);
            push_digits(m, &mut out);
        } else {
            push_digits(v as u64, &mut out);
        }
        out.push(' ');
        proof {
            let pre = values@.subrange(0, i as int);
            let next = values@.subrange(0, i + 1);
            assert(next.drop_last() =~= pre);
            assert(out@ =~= values_text(next));
        }
        i = i + 1;
    }
    assert(values@.subrange(0, values@.len() as int) =~= values@);
    out.push('\n');
    string_from_chars(&out)
}

} // verus!
