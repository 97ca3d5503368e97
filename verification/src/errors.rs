use vstd::prelude::*;
use vstd::string::StringExecFns;

verus! {

/// Everything that can make a load or an analysis run fail. Every failure is
/// fatal: the caller abandons the run and surfaces the error unchanged.
#[derive(Clone, Copy, Debug, PartialEq, Eq, Structural)]
pub enum GraphError {
    /// Analysis was invoked on a graph with no vertices.
    EmptyGraph,
    /// A reference addresses an ID greater than the vertex count.
    InvalidVertexId(usize),
    /// A reference addresses ID 0, which only the synthetic root may hold.
    RootIdUsedAsReference,
    /// A data row has fewer than three whitespace-separated items.
    TooFewItems,
    /// A data row has more than three whitespace-separated items.
    TooManyItems,
    /// The first item of a row is not an unsigned integer in range.
    ParseLeftId,
    /// The second item of a row is not an unsigned integer in range.
    ParseRightId,
    /// The third item of a row is not an unsigned integer in range.
    ParseTimestamp,
    /// The declared-count line is not an unsigned integer in range.
    ParseNodeCount,
    /// The database holds no lines at all, not even a count line.
    EndOfFile,
    /// The declared count does not match the number of data rows.
    CountMismatch { actual: usize, declared: usize },
}

/// The character for one decimal digit.
pub open spec fn decimal_digit(d: nat) -> char {
    if d == 0 {
        '0'
    } else if d == 1 {
        '1'
    } else if d == 2 {
        '2'
    } else if d == 3 {
        '3'
    } else if d == 4 {
        '4'
    } else if d == 5 {
        '5'
    } else if d == 6 {
        '6'
    } else if d == 7 {
        '7'
    } else if d == 8 {
        '8'
    } else {
        '9'
    }
}

/// The usual decimal rendering of a number, most significant digit first,
/// with no leading zeros (a single zero for the number zero).
pub open spec fn decimal_str(n: nat) -> Seq<char>
    decreases n,
{
    if n < 10 {
        seq![decimal_digit(n)]
    } else {
        decimal_str(n / 10) + seq![decimal_digit(n % 10)]
    }
}

/// The string literal for one decimal digit.
fn digit_str(d: usize) -> (r: &'static str)
    requires
        d < 10,
    ensures
        r@ == seq![decimal_digit(d as nat)],
{
    proof {
        reveal_strlit("0");
        reveal_strlit("1");
        reveal_strlit("2");
        reveal_strlit("3");
        reveal_strlit("4");
        reveal_strlit("5");
        reveal_strlit("6");
        reveal_strlit("7");
        reveal_strlit("8");
        reveal_strlit("9");
    }
    let r = if d == 0 {
        "0"
    } else if d == 1 {
        "1"
    } else if d == 2 {
        "2"
    } else if d == 3 {
        "3"
    } else if d == 4 {
        "4"
    } else if d == 5 {
        "5"
    } else if d == 6 {
        "6"
    } else if d == 7 {
        "7"
    } else if d == 8 {
        "8"
    } else {
        "9"
    };
    proof {
        assert(r@ =~= seq![decimal_digit(d as nat)]);
    }
    r
}

/// Appends the decimal rendering of `n` to `out`.
fn push_decimal(n: usize, out: &mut String)
    ensures
        final(out)@ == old(out)@ + decimal_str(n as nat),
    decreases n,
{
    if n >= 10 {
        push_decimal(n / 10, out);
        out.append(digit_str(n % 10));
        proof {
            assert(out@ =~= old(out)@ + decimal_str(n as nat));
        }
    } else {
        out.append(digit_str(n));
        proof {
            assert(out@ =~= old(out)@ + decimal_str(n as nat));
        }
    }
}

impl GraphError {
    /// The text that describes this error to a reader.
    pub open spec fn message_spec(self) -> Seq<char> {
        match self {
            GraphError::EmptyGraph => "the graph cannot be empty"@,
            GraphError::InvalidVertexId(id) => "vertex with ID "@ + decimal_str(id as nat)
                + " doesn't exist"@,
            GraphError::RootIdUsedAsReference => "the graph cannot have the vertex with ID 0. The minimum is 1"@,
            GraphError::TooFewItems => "the row has too few items"@,
            GraphError::TooManyItems => "the row has too many items"@,
            GraphError::ParseLeftId => "unable to parse the left ID"@,
            GraphError::ParseRightId => "unable to parse the right ID"@,
            GraphError::ParseTimestamp => "unable to parse the timestamp"@,
            GraphError::ParseNodeCount => "unable to parse the number of nodes"@,
            GraphError::EndOfFile => "end of file"@,
            GraphError::CountMismatch { actual, declared } => "The number vertices ("@
                + decimal_str(actual as nat) + ") isn't equal to the number declared: "@
                + decimal_str(declared as nat),
        }
    }

    /// Renders the error description.
    pub fn message(&self) -> (r: String)
        ensures
            r@ == self.message_spec(),
    {
        match *self {
            GraphError::EmptyGraph => String::from_str("the graph cannot be empty"),
            GraphError::InvalidVertexId(id) => {
                let mut s = String::from_str("vertex with ID ");
                push_decimal(id, &mut s);
                let r = s.concat(" doesn't exist");
                proof {
                    assert(r@ =~= self.message_spec());
                }
                r
            },
            GraphError::RootIdUsedAsReference => String::from_str(
                "the graph cannot have the vertex with ID 0. The minimum is 1",
            ),
            GraphError::TooFewItems => String::from_str("the row has too few items"),
            GraphError::TooManyItems => String::from_str("the row has too many items"),
            GraphError::ParseLeftId => String::from_str("unable to parse the left ID"),
            GraphError::ParseRightId => String::from_str("unable to parse the right ID"),
            GraphError::ParseTimestamp => String::from_str("unable to parse the timestamp"),
            GraphError::ParseNodeCount => String::from_str("unable to parse the number of nodes"),
            GraphError::EndOfFile => String::from_str("end of file"),
            GraphError::CountMismatch { actual, declared } => {
                let mut s = String::from_str("The number vertices (");
                push_decimal(actual, &mut s);
                s.append(") isn't equal to the number declared: ");
                push_decimal(declared, &mut s);
                proof {
                    assert(s@ =~= self.message_spec());
                }
                s
            },
        }
    }
}

} // verus!
