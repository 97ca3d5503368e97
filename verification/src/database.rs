use vstd::prelude::*;
use vstd::string::StringSliceAdditionalSpecFns;
use vstd::utf8::encode_utf8;

use crate::errors::GraphError;
use crate::vertex::{digits_value, parse_unsigned, parses_to_value, Vertex};

verus! {

/// The vertices parsed from data lines `1..n`, or the first row error;
/// the row at line index `i` belongs to graph position `i + 1`.
pub open spec fn parsed_rows(lines: Seq<Seq<char>>, n: int) -> Result<Seq<Vertex>, GraphError>
    decreases n,
{
    if n <= 1 {
        Ok(seq![])
    } else {
        match parsed_rows(lines, n - 1) {
            Err(e) => Err(e),
            Ok(vs) => match Vertex::parse_row(encode_utf8(lines[n - 1]), n as usize) {
                Err(e) => Err(e),
                Ok(v) => Ok(vs.push(v)),
            },
        }
    }
}

/// What loading denotes: parse the count line, parse every data row in
/// order, check the declared count, and put a synthetic root vertex in
/// front of the rows.
pub open spec fn load_spec(lines: Seq<Seq<char>>) -> Result<Seq<Vertex>, GraphError> {
    if lines.len() == 0 {
        Err(GraphError::EndOfFile)
    } else if !parses_to_value(encode_utf8(lines[0]), usize::MAX as nat) {
        Err(GraphError::ParseNodeCount)
    } else {
        let declared = digits_value(encode_utf8(lines[0]));
        match parsed_rows(lines, lines.len() as int) {
            Err(e) => Err(e),
            Ok(vs) => if vs.len() != declared {
                Err(
                    GraphError::CountMismatch {
                        actual: vs.len() as usize,
                        declared: declared as usize,
                    },
                )
            } else {
                Ok(seq![Vertex { left: None, right: None, timestamp: 0 }] + vs)
            },
        }
    }
}

proof fn lemma_parsed_rows_err(lines: Seq<Seq<char>>, i: int, n: int)
    requires
        1 <= i <= n,
        parsed_rows(lines, i) is Err,
    ensures
        parsed_rows(lines, n) == parsed_rows(lines, i),
    decreases n - i,
{
    if i < n {
        lemma_parsed_rows_err(lines, i, n - 1);
    }
}

/// Parses the declared vertex count from the first line of the database.
pub fn get_number_of_nodes(line: &str) -> (r: Result<usize, GraphError>)
    ensures
        parses_to_value(line.spec_bytes(), usize::MAX as nat) ==> r == Ok::<usize, GraphError>(
            digits_value(line.spec_bytes()) as usize,
        ),
        !parses_to_value(line.spec_bytes(), usize::MAX as nat) ==> r == Err::<usize, GraphError>(
            GraphError::ParseNodeCount,
        ),
{
    match parse_unsigned(line.as_bytes()) {
        Some(v) => Ok(v),
        None => Err(GraphError::ParseNodeCount),
    }
}

/// Parses the data line at 0-based file position `line_number` into the
/// vertex that occupies graph position `line_number + 1`.
pub fn convert_maybe_string_to_node(line: &str, line_number: usize) -> (r: Result<
    Vertex,
    GraphError,
>)
    requires
        line_number < usize::MAX,
    ensures
        r == Vertex::parse_row(line.spec_bytes(), (line_number + 1) as usize),
{
    Vertex::from_str(line, line_number + 1)
}

/// Loads the whole database text, already split into lines. The first
/// line declares how many data rows follow; the returned vertices start
/// with the synthetic root.
pub fn load_vertices_from_database(lines: &Vec<String>) -> (r: Result<Vec<Vertex>, GraphError>)
    ensures
        load_spec(lines.deep_view()) matches Ok(vs) ==> (r matches Ok(out) && out@ == vs),
        load_spec(lines.deep_view()) matches Err(e) ==> r == Err::<Vec<Vertex>, GraphError>(e),
{
    let ghost ld = lines.deep_view();
    proof {
        assert(ld.len() == lines@.len());
    }
    if lines.len() == 0 {
        return Err(GraphError::EndOfFile);
    }
    proof {
        assert(ld[0] == lines@[0]@);
    }
    let declared = match get_number_of_nodes(lines[0].as_str()) {
        Ok(v) => v,
        Err(e) => {
            return Err(e);
        },
    };
    let n = lines.len();
    let mut rows: Vec<Vertex> = Vec::new();
    let mut i: usize = 1;
    while i < n
        invariant
            1 <= i <= n,
            n == lines@.len(),
            ld == lines.deep_view(),
            ld.len() == n,
            parses_to_value(encode_utf8(ld[0]), usize::MAX as nat),
            parsed_rows(ld, i as int) == Ok::<Seq<Vertex>, GraphError>(rows@),
        decreases n - i,
    {
        proof {
            assert(ld[i as int] == lines@[i as int]@);
        }
        match convert_maybe_string_to_node(lines[i].as_str(), i) {
            Ok(v) => {
                rows.push(v);
            },
            Err(e) => {
                proof {
                    assert(Vertex::parse_row(encode_utf8(ld[i as int]), (i + 1) as usize)
                        == Err::<Vertex, GraphError>(e));
                    assert(parsed_rows(ld, i as int + 1) == Err::<Seq<Vertex>, GraphError>(e));
                    lemma_parsed_rows_err(ld, i as int + 1, n as int);
                }
                return Err(e);
            },
        }
        i = i + 1;
    }
    if rows.len() != declared {
        return Err(GraphError::CountMismatch { actual: rows.len(), declared });
    }
    let mut out: Vec<Vertex> = Vec::new();
    out.push(Vertex::default());
    let m = rows.len();
    let mut k: usize = 0;
    while k < m
        invariant
            k <= m,
            m == rows@.len(),
            out@ == seq![Vertex { left: None, right: None, timestamp: 0 }] + rows@.subrange(
                0,
                k as int,
            ),
        decreases m - k,
    {
        out.push(rows[k]);
        proof {
            assert(out@ =~= seq![Vertex { left: None, right: None, timestamp: 0 }]
                + rows@.subrange(0, k as int + 1));
        }
        k = k + 1;
    }
    proof {
        assert(rows@.subrange(0, m as int) =~= rows@);
    }
    Ok(out)
}

} // verus!
