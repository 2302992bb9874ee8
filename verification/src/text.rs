//! Numbers and version vectors as text.
use vstd::prelude::*;
use vstd::string::*;

use crate::vector::VersionVector;

verus! {

/// A decimal digit.
pub open spec fn digit_text(d: nat) -> Seq<char> {
    if d == 0 {
        "0"@
    } else if d == 1 {
        "1"@
    } else if d == 2 {
        "2"@
    } else if d == 3 {
        "3"@
    } else if d == 4 {
        "4"@
    } else if d == 5 {
        "5"@
    } else if d == 6 {
        "6"@
    } else if d == 7 {
        "7"@
    } else if d == 8 {
        "8"@
    } else {
        "9"@
    }
}

/// A number in decimal.
pub open spec fn decimal_text(n: nat) -> Seq<char>
    decreases n,
{
    if n < 10 {
        digit_text(n)
    } else {
        decimal_text(n / 10) + digit_text(n % 10)
    }
}

fn push_digit(out: &mut String, d: u64)
    requires
        d < 10,
    ensures
        final(out)@ == old(out)@ + digit_text(d as nat),
{
    if d == 0 {
        out.append("0");
    } else if d == 1 {
        out.append("1");
    } else if d == 2 {
        out.append("2");
    } else if d == 3 {
        out.append("3");
    } else if d == 4 {
        out.append("4");
    } else if d == 5 {
        out.append("5");
    } else if d == 6 {
        out.append("6");
    } else if d == 7 {
        out.append("7");
    } else if d == 8 {
        out.append("8");
    } else {
        out.append("9");
    }
}

/// Appends a number in decimal.
pub fn push_decimal(out: &mut String, n: u64)
    ensures
        final(out)@ == old(out)@ + decimal_text(n as nat),
    decreases n,
{
    if n < 10 {
        push_digit(out, n);
    } else {
        push_decimal(out, n / 10);
        push_digit(out, n % 10);
        proof {
            assert(out@ =~= old(out)@ + decimal_text(n as nat));
        }
    }
}

/// The entries of a version vector, in order.
pub open spec fn entries_text(s: Seq<(u16, u64)>) -> Seq<char>
    decreases s.len(),
{
    if s.len() == 0 {
        Seq::empty()
    } else {
        let front = entries_text(s.drop_last());
        let gap = if s.len() > 1 {
            front + ", "@
        } else {
            front
        };
        gap + "("@ + decimal_text(s.last().0 as nat) + ", "@ + decimal_text(s.last().1 as nat)
            + ")"@
    }
}

/// A version vector as text.
pub open spec fn vector_text(s: Seq<(u16, u64)>) -> Seq<char> {
    "VersionVector { entries: ["@ + entries_text(s) + "] }"@
}

/// Appends a version vector as text.
pub fn push_vector(out: &mut String, vv: &VersionVector)
    ensures
        final(out)@ == old(out)@ + vector_text(vv@),
{
    let ghost before = out@;
    out.append("VersionVector { entries: [");
    let entries: &[(u16, u64)] = vv.entries();
    let n: usize = entries.len();
    let ghost start = out@;
    let mut i: usize = 0;
    proof {
        assert(vv@.take(0) =~= Seq::empty());
        assert(start + entries_text(vv@.take(0)) =~= start);
    }
    while i < n
        invariant
            entries@ == vv@,
            n == vv@.len(),
            i <= n,
            out@ == start + entries_text(vv@.take(i as int)),
        decreases n - i,
    {
        let ghost t = vv@.take(i + 1);
        proof {
            assert(t.drop_last() =~= vv@.take(i as int));
            assert(t.last() == vv@[i as int]);
        }
        if i > 0 {
            out.append(", ");
        }
        out.append("(");
        push_decimal(out, entries[i].0 as u64);
        out.append(", ");
        push_decimal(out, entries[i].1);
        out.append(")");
        proof {
            assert(out@ =~= start + entries_text(t));
        }
        i = i + 1;
    }
    out.append("] }");
    proof {
        assert(vv@.take(n as int) =~= vv@);
        assert(out@ =~= before + vector_text(vv@));
    }
}

} // verus!
