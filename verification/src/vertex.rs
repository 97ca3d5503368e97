use vstd::prelude::*;
use vstd::slice::slice_index_get;
use vstd::string::StringSliceAdditionalSpecFns;

use crate::errors::GraphError;

verus! {

/// One record of the input: up to two declared parent references and a
/// timestamp. A self-reference is normalized to "no edge" at parse time.
#[derive(Clone, Copy, Debug, PartialEq, Eq)]
pub struct Vertex {
    pub left: Option<usize>,
    pub right: Option<usize>,
    pub timestamp: u32,
}

impl Default for Vertex {
    /// The synthetic root record: no references, timestamp zero.
    fn default() -> (r: Self)
        ensures
            r == (Vertex { left: None, right: None, timestamp: 0 }),
    {
        Vertex { left: None, right: None, timestamp: 0 }
    }
}

/// The bytes that `str::split_ascii_whitespace` treats as separators.
pub open spec fn is_ascii_space(b: u8) -> bool {
    b == 32 || b == 9 || b == 10 || b == 12 || b == 13
}

pub open spec fn is_digit_byte(b: u8) -> bool {
    48 <= b && b <= 57
}

pub open spec fn digit_val(b: u8) -> nat
    recommends
        is_digit_byte(b),
{
    (b - 48) as nat
}

/// The maximal runs of non-whitespace bytes, in order.
pub open spec fn tokens_of(s: Seq<u8>) -> Seq<Seq<u8>>
    decreases s.len(),
{
    if s.len() == 0 {
        seq![]
    } else if is_ascii_space(s[0]) {
        tokens_of(s.skip(1))
    } else {
        let rest = tokens_of(s.skip(1));
        if s.len() > 1 && !is_ascii_space(s[1]) {
            seq![seq![s[0]] + rest[0]] + rest.skip(1)
        } else {
            seq![seq![s[0]]] + rest
        }
    }
}

pub open spec fn all_digits(t: Seq<u8>) -> bool {
    forall|i: int| 0 <= i < t.len() ==> is_digit_byte(#[trigger] t[i])
}

/// The number a run of decimal digits denotes, most significant first.
pub open spec fn digits_value(t: Seq<u8>) -> nat
    decreases t.len(),
{
    if t.len() == 0 {
        0
    } else {
        digits_value(t.drop_last()) * 10 + digit_val(t.last())
    }
}

/// The token denotes an unsigned integer no larger than `max`.
pub open spec fn parses_to_value(t: Seq<u8>, max: nat) -> bool {
    t.len() > 0 && all_digits(t) && digits_value(t) <= max
}

proof fn lemma_digits_prefix_step(t: Seq<u8>, n: int)
    requires
        0 <= n < t.len(),
    ensures
        digits_value(t.subrange(0, n + 1)) == digits_value(t.subrange(0, n)) * 10 + digit_val(
            t[n],
        ),
{
    assert(t.subrange(0, n + 1).drop_last() =~= t.subrange(0, n));
    assert(t.subrange(0, n + 1).last() == t[n]);
}

proof fn lemma_digits_prefix_le(t: Seq<u8>, n: int)
    requires
        0 <= n <= t.len(),
    ensures
        digits_value(t.subrange(0, n)) <= digits_value(t),
    decreases t.len() - n,
{
    if n == t.len() {
        assert(t.subrange(0, n) =~= t);
    } else {
        lemma_digits_prefix_step(t, n);
        lemma_digits_prefix_le(t, n + 1);
    }
}

/// A run of non-space bytes up to a boundary is the first token.
proof fn lemma_tokens_head(s: Seq<u8>, j: int)
    requires
        0 < j <= s.len(),
        forall|k: int| 0 <= k < j ==> !is_ascii_space(#[trigger] s[k]),
        j == s.len() || is_ascii_space(s[j]),
    ensures
        tokens_of(s) == seq![s.subrange(0, j)] + tokens_of(s.skip(j)),
    decreases j,
{
    if j == 1 {
        assert(s.subrange(0, 1) =~= seq![s[0]]);
        if s.len() == 1 {
            assert(tokens_of(s) =~= seq![s.subrange(0, 1)] + tokens_of(s.skip(1)));
        } else {
            assert(tokens_of(s) =~= seq![s.subrange(0, 1)] + tokens_of(s.skip(1)));
        }
    } else {
        let tail = s.skip(1);
        assert(tail[0] == s[1]);
        assert forall|k: int| 0 <= k < j - 1 implies !is_ascii_space(#[trigger] tail[k]) by {
            assert(tail[k] == s[k + 1]);
        }
        if j - 1 < tail.len() {
            assert(tail[j - 1] == s[j]);
        }
        lemma_tokens_head(tail, j - 1);
        let rest = tokens_of(tail);
        assert(rest == seq![tail.subrange(0, j - 1)] + tokens_of(tail.skip(j - 1)));
        assert(rest[0] == tail.subrange(0, j - 1));
        assert(rest.skip(1) =~= tokens_of(tail.skip(j - 1)));
        assert(tail.skip(j - 1) =~= s.skip(j));
        assert(seq![s[0]] + tail.subrange(0, j - 1) =~= s.subrange(0, j));
        assert(tokens_of(s) == seq![seq![s[0]] + rest[0]] + rest.skip(1));
        assert(tokens_of(s) =~= seq![s.subrange(0, j)] + tokens_of(s.skip(j)));
    }
}

fn is_space_byte(b: u8) -> (r: bool)
    ensures
        r == is_ascii_space(b),
{
    b == 32 || b == 9 || b == 10 || b == 12 || b == 13
}

/// Reads an unsigned decimal integer; anything but ASCII digits, and any
/// value over `usize::MAX`, is rejected.
pub fn parse_unsigned(t: &[u8]) -> (r: Option<usize>)
    ensures
        parses_to_value(t@, usize::MAX as nat) ==> r == Some(digits_value(t@) as usize),
        !parses_to_value(t@, usize::MAX as nat) ==> r is None,
{
    let n = t.len();
    if n == 0 {
        return None;
    }
    let mut acc: usize = 0;
    let mut i: usize = 0;
    while i < n
        invariant
            i <= n,
            n == t@.len(),
            all_digits(t@.subrange(0, i as int)),
            acc == digits_value(t@.subrange(0, i as int)),
        decreases n - i,
    {
        let b = *slice_index_get(t, i);
        if b < 48 || b > 57 {
            proof {
                assert(!is_digit_byte(t@[i as int]));
            }
            return None;
        }
        let d = (b - 48) as usize;
        proof {
            lemma_digits_prefix_step(t@, i as int);
        }
        let next = match acc.checked_mul(10) {
            Some(m) => m.checked_add(d),
            None => None,
        };
        match next {
            Some(v) => {
                proof {
                    assert forall|k: int| 0 <= k < i as int + 1 implies is_digit_byte(
                        #[trigger] t@.subrange(0, i as int + 1)[k],
                    ) by {
                        assert(t@.subrange(0, i as int + 1)[k] == t@[k]);
                        if k < i as int {
                            assert(t@.subrange(0, i as int)[k] == t@[k]);
                        }
                    }
                }
                acc = v;
                i = i + 1;
            },
            None => {
                proof {
                    assert(digits_value(t@.subrange(0, i as int + 1)) > usize::MAX as nat);
                    lemma_digits_prefix_le(t@, i as int + 1);
                }
                return None;
            },
        }
    }
    proof {
        assert(t@.subrange(0, n as int) =~= t@);
    }
    Some(acc)
}

/// Splits a byte string into its maximal runs of non-whitespace bytes, the
/// way `str::split_ascii_whitespace` does.
pub fn split_tokens(s: &[u8]) -> (r: Vec<Vec<u8>>)
    ensures
        r.deep_view() == tokens_of(s@),
{
    let n = s.len();
    let mut toks: Vec<Vec<u8>> = Vec::new();
    proof {
        assert(s@.skip(0) =~= s@);
        assert(toks.deep_view() =~~= Seq::<Seq<u8>>::empty());
        assert(Seq::<Seq<u8>>::empty() + tokens_of(s@) =~= tokens_of(s@));
    }
    let mut i: usize = 0;
    while i < n
        invariant
            i <= n,
            n == s@.len(),
            toks.deep_view() + tokens_of(s@.skip(i as int)) == tokens_of(s@),
        decreases n - i,
    {
        let b = *slice_index_get(s, i);
        if is_space_byte(b) {
            proof {
                assert(s@.skip(i as int)[0] == s@[i as int]);
                assert(s@.skip(i as int).skip(1) =~= s@.skip(i as int + 1));
            }
            i = i + 1;
        } else {
            let ghost start = i as int;
            let mut tok: Vec<u8> = Vec::new();
            tok.push(b);
            proof {
                assert(tok@ =~= s@.subrange(start, start + 1));
            }
            i = i + 1;
            while i < n && !is_space_byte(*slice_index_get(s, i))
                invariant
                    n == s@.len(),
                    0 <= start,
                    start < i as int,
                    i <= n,
                    tok@ == s@.subrange(start, i as int),
                    forall|k: int| start <= k < i as int ==> !is_ascii_space(#[trigger] s@[k]),
                decreases n - i,
            {
                tok.push(*slice_index_get(s, i));
                proof {
                    assert(tok@ =~= s@.subrange(start, i as int + 1));
                }
                i = i + 1;
            }
            proof {
                let suffix = s@.skip(start);
                let j = i as int - start;
                assert forall|k: int| 0 <= k < j implies !is_ascii_space(#[trigger] suffix[k]) by {
                    assert(suffix[k] == s@[start + k]);
                }
                if j < suffix.len() {
                    assert(suffix[j] == s@[i as int]);
                }
                lemma_tokens_head(suffix, j);
                assert(suffix.subrange(0, j) =~= s@.subrange(start, i as int));
                assert(suffix.skip(j) =~= s@.skip(i as int));
            }
            let ghost old_deep = toks.deep_view();
            toks.push(tok);
            proof {
                assert(toks.deep_view() =~~= old_deep + seq![tok@]);
                assert(old_deep + seq![tok@] + tokens_of(s@.skip(i as int)) =~= old_deep
                    + tokens_of(s@.skip(start)));
            }
        }
    }
    proof {
        assert(s@.skip(n as int) =~= Seq::<u8>::empty());
        assert(toks.deep_view() + tokens_of(s@.skip(n as int)) =~= toks.deep_view());
    }
    toks
}

impl Vertex {
    /// What one data row denotes: three whitespace-separated unsigned
    /// integers `left right timestamp`, where a reference equal to the
    /// row's own ID means "no edge", and the first offending item names
    /// the error.
    pub open spec fn parse_row(s: Seq<u8>, id: usize) -> Result<Vertex, GraphError> {
        let toks = tokens_of(s);
        if toks.len() > 3 {
            Err(GraphError::TooManyItems)
        } else if toks.len() < 3 {
            Err(GraphError::TooFewItems)
        } else if !parses_to_value(toks[0], usize::MAX as nat) {
            Err(GraphError::ParseLeftId)
        } else if !parses_to_value(toks[1], usize::MAX as nat) {
            Err(GraphError::ParseRightId)
        } else if !parses_to_value(toks[2], u32::MAX as nat) {
            Err(GraphError::ParseTimestamp)
        } else {
            let l = digits_value(toks[0]) as usize;
            let r = digits_value(toks[1]) as usize;
            Ok(
                Vertex {
                    left: if l == id {
                        None
                    } else {
                        Some(l)
                    },
                    right: if r == id {
                        None
                    } else {
                        Some(r)
                    },
                    timestamp: digits_value(toks[2]) as u32,
                },
            )
        }
    }

    /// Parses one data row for the vertex whose 1-based position is `id`.
    pub fn from_str(s: &str, id: usize) -> (r: Result<Vertex, GraphError>)
        ensures
            r == Self::parse_row(s.spec_bytes(), id),
    {
        let bytes: &[u8] = s.as_bytes();
        let toks = split_tokens(bytes);
        proof {
            assert forall|k: int| 0 <= k < toks@.len() implies #[trigger] toks@[k].deep_view()
                =~= toks@[k]@ by {
            }
            assert(toks.deep_view().len() == toks@.len());
        }
        if toks.len() > 3 {
            return Err(GraphError::TooManyItems);
        }
        if toks.len() < 3 {
            return Err(GraphError::TooFewItems);
        }
        proof {
            assert(toks.deep_view()[0] == toks@[0]@);
            assert(toks.deep_view()[1] == toks@[1]@);
            assert(toks.deep_view()[2] == toks@[2]@);
        }
        let left_id = match parse_unsigned(toks[0].as_slice()) {
            Some(v) => v,
            None => {
                return Err(GraphError::ParseLeftId);
            },
        };
        let right_id = match parse_unsigned(toks[1].as_slice()) {
            Some(v) => v,
            None => {
                return Err(GraphError::ParseRightId);
            },
        };
        let ts = match parse_unsigned(toks[2].as_slice()) {
            Some(v) => v,
            None => {
                return Err(GraphError::ParseTimestamp);
            },
        };
        if ts > u32::MAX as usize {
            return Err(GraphError::ParseTimestamp);
        }
        let left = if left_id == id {
            None
        } else {
            Some(left_id)
        };
        let right = if right_id == id {
            None
        } else {
            Some(right_id)
        };
        Ok(Vertex { left, right, timestamp: ts as u32 })
    }
}

} // verus!
