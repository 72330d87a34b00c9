use vstd::prelude::*;
use vstd::string::StringExecFns;

verus! {

/// The character that writes the digit `d`.
pub open spec fn digit_char(d: int) -> char {
    if d == 0 {
        '0'
    } else if d == 1 {
        '1'
    } else if d == 2 {
        '2'
    } else if d == 3 {
        '3'
    } else if d == 4 {
        '4'
    } else if d == 5 {
        '5'
    } else if d == 6 {
        '6'
    } else if d == 7 {
        '7'
    } else if d == 8 {
        '8'
    } else {
        '9'
    }
}

/// The decimal digits of `n`, the most significant first, without leading
/// zeros.
pub open spec fn digits(n: nat) -> Seq<char>
    decreases n,
{
    if n < 10 {
        seq![digit_char(n as int)]
    } else {
        digits(n / 10).push(digit_char((n % 10) as int))
    }
}

/// How `n` is written in decimal: its digits, after a minus sign where it is
/// negative.
pub open spec fn decimal(n: int) -> Seq<char> {
    if n < 0 {
        seq!['-'] + digits((-n) as nat)
    } else {
        digits(n as nat)
    }
}

/// `n` tab characters.
pub open spec fn tabs(n: nat) -> Seq<char> {
    Seq::new(n, |i: int| '\t')
}

/// The line that shows one node: its id and name with a colon between,
/// ended by a line feed. The topmost node of a dump stands at the margin;
/// a node `depth` levels below it stands behind `indent + depth - 1` tabs.
pub open spec fn line(indent: nat, depth: nat, id: int, name: Seq<char>) -> Seq<char> {
    tabs(
        if depth == 0 {
            0
        } else {
            (indent + depth - 1) as nat
        },
    ) + decimal(id) + seq![':'] + name + seq!['\n']
}

/// The text that stands for one node in a list of nodes: "-1:Root" for the
/// node above all records, and for any other node `indent` tabs, the id, a
/// colon and the name.
pub open spec fn entry_text(indent: nat, id: int, name: Seq<char>) -> Seq<char> {
    if id == -1 {
        "-1:Root"@
    } else {
        tabs(indent) + decimal(id) + seq![':'] + name
    }
}

/// The lines of the rows, one after the other.
pub open spec fn dump_text(rows: Seq<(nat, int, Seq<char>)>, indent: nat) -> Seq<char>
    decreases rows.len(),
{
    if rows.len() == 0 {
        Seq::empty()
    } else {
        dump_text(rows.drop_last(), indent) + line(
            indent,
            rows.last().0,
            rows.last().1,
            rows.last().2,
        )
    }
}

/// The text of one digit.
fn digit_text(d: u64) -> (text: &'static str)
    requires
        d < 10,
    ensures
        text@ == seq![digit_char(d as int)],
{
    proof {
        reveal_strlit("0");
        reveal_strlit("1");
        reveal_strlit("2");
        reveal_strlit("3");
        reveal_strlit("4");
        reveal_strlit("5");
        reveal_strlit("6");
        reveal_strlit("7");
        reveal_strlit("8");
        reveal_strlit("9");
    }
    let text = if d == 0 {
        "0"
    } else if d == 1 {
        "1"
    } else if d == 2 {
        "2"
    } else if d == 3 {
        "3"
    } else if d == 4 {
        "4"
    } else if d == 5 {
        "5"
    } else if d == 6 {
        "6"
    } else if d == 7 {
        "7"
    } else if d == 8 {
        "8"
    } else {
        "9"
    };
    assert(text@ =~= seq![digit_char(d as int)]);
    text
}

/// Writes the digits of `n` at the end of `out`.
fn push_digits(out: &mut String, n: u64)
    ensures
        final(out)@ == old(out)@ + digits(n as nat),
    decreases n,
{
    if n >= 10 {
        push_digits(out, n / 10);
    }
    out.append(digit_text(n % 10));
    assert(out@ =~= old(out)@ + digits(n as nat));
}

/// Writes `n` in decimal at the end of `out`.
pub fn push_decimal(out: &mut String, n: i32)
    ensures
        final(out)@ == old(out)@ + decimal(n as int),
{
    if n < 0 {
        proof {
            reveal_strlit("-");
        }
        out.append("-");
        let size: u64 = (-(n as i64)) as u64;
        push_digits(out, size);
        assert(out@ =~= old(out)@ + decimal(n as int));
    } else {
        push_digits(out, n as u64);
    }
}

/// Writes `n` tab characters at the end of `out`.
pub fn push_tabs(out: &mut String, n: usize)
    ensures
        final(out)@ == old(out)@ + tabs(n as nat),
{
    let mut i: usize = 0;
    proof {
        assert(out@ =~= old(out)@ + tabs(0));
    }
    while i < n
        invariant
            0 <= i <= n,
            out@ == old(out)@ + tabs(i as nat),
        decreases n - i,
    {
        proof {
            reveal_strlit("\t");
        }
        out.append("\t");
        i += 1;
        proof {
            assert("\t"@ =~= seq!['\t']);
            assert(out@ =~= old(out)@ + tabs(i as nat));
        }
    }
}

/// Writes the line of one node at the end of `out`.
pub fn push_line(out: &mut String, indent: usize, depth: usize, id: i32, name: &str)
    ensures
        final(out)@ == old(out)@ + line(indent as nat, depth as nat, id as int, name@),
{
    if depth > 0 {
        push_tabs(out, indent);
        push_tabs(out, depth - 1);
        proof {
            assert(tabs(indent as nat) + tabs((depth - 1) as nat) =~= tabs(
                (indent + depth - 1) as nat,
            ));
        }
    }
    let ghost indented = out@;
    proof {
        reveal_strlit(":");
        reveal_strlit("\n");
        assert(":"@ =~= seq![':']);
        assert("\n"@ =~= seq!['\n']);
        assert(indented =~= old(out)@ + tabs(
            if depth == 0 {
                0
            } else {
                (indent + depth - 1) as nat
            },
        ));
    }
    push_decimal(out, id);
    out.append(":");
    out.append(name);
    out.append("\n");
    proof {
        assert(out@ =~= old(out)@ + line(indent as nat, depth as nat, id as int, name@));
    }
}

} // verus!
