//! Decimal and boolean text, as the shapes' printed descriptions use it.

use vstd::prelude::*;

verus! {

/// The text of one decimal digit.
pub open spec fn digit_text(d: nat) -> Seq<char> {
    if d == 0 {
        "0"@
    } else if d == 1 {
        "1"@
    } else if d == 2 {
        "2"@
    } else if d == 3 {
        "3"@
    } else if d == 4 {
        "4"@
    } else if d == 5 {
        "5"@
    } else if d == 6 {
        "6"@
    } else if d == 7 {
        "7"@
    } else if d == 8 {
        "8"@
    } else {
        "9"@
    }
}

/// The decimal text of `n`, without leading zeros.
pub open spec fn decimal_text(n: nat) -> Seq<char>
    decreases n,
{
    if n < 10 {
        digit_text(n)
    } else {
        decimal_text(n / 10) + digit_text(n % 10)
    }
}

/// The text of a boolean.
pub open spec fn bool_text(b: bool) -> Seq<char> {
    if b {
        "true"@
    } else {
        "false"@
    }
}

/// The debug text of an optional index: `Some(n)` or `None`.
pub open spec fn option_text(o: Option<usize>) -> Seq<char> {
    match o {
        Some(n) => "Some("@ + decimal_text(n as nat) + ")"@,
        None => "None"@,
    }
}

/// The indices joined by `, `.
pub open spec fn joined_text(s: Seq<usize>) -> Seq<char>
    decreases s.len(),
{
    if s.len() == 0 {
        Seq::empty()
    } else if s.len() == 1 {
        decimal_text(s[0] as nat)
    } else {
        joined_text(s.drop_last()) + ", "@ + decimal_text(s.last() as nat)
    }
}

/// The debug text of a list of indices: `[a, b, c]`.
pub open spec fn list_text(s: Seq<usize>) -> Seq<char> {
    "["@ + joined_text(s) + "]"@
}

fn digit_str(d: usize) -> (r: &'static str)
    requires
        d < 10,
    ensures
        r@ == digit_text(d as nat),
{
    if d == 0 {
        "0"
    } else if d == 1 {
        "1"
    } else if d == 2 {
        "2"
    } else if d == 3 {
        "3"
    } else if d == 4 {
        "4"
    } else if d == 5 {
        "5"
    } else if d == 6 {
        "6"
    } else if d == 7 {
        "7"
    } else if d == 8 {
        "8"
    } else {
        "9"
    }
}

/// Appends the decimal text of `n` to `out`.
pub fn push_decimal(out: &mut String, n: usize)
    ensures
        final(out)@ == old(out)@ + decimal_text(n as nat),
    decreases n,
{
    if n < 10 {
        out.append(digit_str(n));
    } else {
        push_decimal(out, n / 10);
        out.append(digit_str(n % 10));
        proof {
            assert(old(out)@ + decimal_text((n / 10) as nat) + digit_text((n % 10) as nat)
                =~= old(out)@ + decimal_text(n as nat));
        }
    }
}

/// Appends the debug text of the list `v` to `out`.
pub fn push_list(out: &mut String, v: &Vec<usize>)
    ensures
        final(out)@ == old(out)@ + list_text(v@),
{
    out.append("[");
    let ghost start = old(out)@ + "["@;
    let n = v.len();
    let mut i: usize = 0;
    while i < n
        invariant
            n == v@.len(),
            i <= n,
            out@ == start + joined_text(v@.take(i as int)),
        decreases n - i,
    {
        let ghost before = out@;
        if i > 0 {
            out.append(", ");
        }
        push_decimal(out, v[i]);
        proof {
            let t = v@.take(i as int + 1);
            assert(t.drop_last() =~= v@.take(i as int));
            assert(t.last() == v@[i as int]);
            if i == 0 {
                assert(v@.take(0) =~= Seq::<usize>::empty());
                assert(joined_text(v@.take(0)) =~= Seq::<char>::empty());
                assert(out@ =~= start + joined_text(t));
            } else {
                assert(out@ =~= start + joined_text(t));
            }
        }
        i = i + 1;
    }
    out.append("]");
    proof {
        assert(v@.take(n as int) =~= v@);
        assert(out@ =~= old(out)@ + list_text(v@));
    }
}

/// Appends the text of `b` to `out`.
pub fn push_bool(out: &mut String, b: bool)
    ensures
        final(out)@ == old(out)@ + bool_text(b),
{
    if b {
        out.append("true");
    } else {
        out.append("false");
    }
}

/// Appends the debug text of `o` to `out`.
pub fn push_option(out: &mut String, o: Option<usize>)
    ensures
        final(out)@ == old(out)@ + option_text(o),
{
    match o {
        Some(n) => {
            out.append("Some(");
            push_decimal(out, n);
            out.append(")");
            proof {
                assert(old(out)@ + "Some("@ + decimal_text(n as nat) + ")"@ =~= old(out)@ + (
                "Some("@ + decimal_text(n as nat) + ")"@));
            }
        },
        None => {
            out.append("None");
        },
    }
}

} // verus!
