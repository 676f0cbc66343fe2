//! The text edge-list format: one edge per line, `src dst` as base-10
//! integers separated by ASCII whitespace. Anything else on a line, blank
//! lines and leading or trailing whitespace included, is a parse error.

use vstd::prelude::*;

use crate::error::GraphError;
use crate::util::ValidGraphType;

verus! {

pub open spec fn is_digit(c: u8) -> bool {
    48 <= c <= 57
}

/// ASCII whitespace: space, tab, line feed, form feed, carriage return.
pub open spec fn is_space(c: u8) -> bool {
    c == 32 || c == 9 || c == 10 || c == 12 || c == 13
}

/// The number that a string of decimal digits spells.
pub open spec fn decimal_value(s: Seq<u8>) -> nat
    decreases s.len(),
{
    if s.len() == 0 {
        0
    } else {
        decimal_value(s.drop_last()) * 10 + (s.last() - 48) as nat
    }
}

pub open spec fn all_digits(s: Seq<u8>) -> bool {
    s.len() > 0 && forall|i: int| 0 <= i < s.len() ==> is_digit(#[trigger] s[i])
}

pub open spec fn all_spaces(s: Seq<u8>) -> bool {
    s.len() > 0 && forall|i: int| 0 <= i < s.len() ==> is_space(#[trigger] s[i])
}

/// `line` is a run of digits `line[0 .. a]`, a run of whitespace
/// `line[a .. b]`, and a run of digits `line[b ..]`.
pub open spec fn splits_as(line: Seq<u8>, a: int, b: int) -> bool {
    &&& 0 < a < b < line.len()
    &&& all_digits(line.take(a))
    &&& all_spaces(line.subrange(a, b))
    &&& all_digits(line.skip(b))
}

/// Scans the digits from `start` on: where the run ends, and its value when
/// that fits in a `u64`.
fn scan_digits(line: &[u8], start: usize) -> (r: (usize, Option<u64>))
    requires
        start <= line@.len(),
    ensures
        start <= r.0 <= line@.len(),
        forall|i: int| start <= i < r.0 ==> is_digit(#[trigger] line@[i]),
        r.0 == line@.len() || !is_digit(line@[r.0 as int]),
        r.1 matches Some(v) ==> v == decimal_value(line@.subrange(start as int, r.0 as int)),
        r.1 is None ==> decimal_value(line@.subrange(start as int, r.0 as int)) > u64::MAX,
{
    let mut i: usize = start;
    let mut v: u64 = 0;
    let mut fits = true;
    assert(line@.subrange(start as int, start as int).len() == 0);
    while i < line.len() && 48 <= line[i] && line[i] <= 57
        invariant
            start <= i <= line@.len(),
            forall|k: int| start <= k < i ==> is_digit(#[trigger] line@[k]),
            fits ==> v == decimal_value(line@.subrange(start as int, i as int)),
            !fits ==> decimal_value(line@.subrange(start as int, i as int)) > u64::MAX,
        decreases line@.len() - i,
    {
        let d = (line[i] - 48) as u64;
        let ghost prev = line@.subrange(start as int, i as int);
        let ghost next = line@.subrange(start as int, i + 1);
        assert(next.drop_last() =~= prev);
        assert(decimal_value(next) == decimal_value(prev) * 10 + d);
        if fits {
            if v > (u64::MAX - d) / 10 {
                fits = false;
                assert(v * 10 + d > u64::MAX) by (nonlinear_arith)
                    requires
                        v > (u64::MAX - d) / 10,
                        d <= 9,
                ;
            } else {
                assert(v * 10 + d <= u64::MAX) by (nonlinear_arith)
                    requires
                        v <= (u64::MAX - d) / 10,
                        d <= 9,
                ;
                v = v * 10 + d;
            }
        } else {
            assert(decimal_value(prev) * 10 + d >= decimal_value(prev)) by (nonlinear_arith);
        }
        i = i + 1;
    }
    if fits {
        (i, Some(v))
    } else {
        (i, None)
    }
}

/// Scans the whitespace from `start` on; returns where the run ends.
fn scan_spaces(line: &[u8], start: usize) -> (r: usize)
    requires
        start <= line@.len(),
    ensures
        start <= r <= line@.len(),
        forall|i: int| start <= i < r ==> is_space(#[trigger] line@[i]),
        r == line@.len() || !is_space(line@[r as int]),
{
    let mut i: usize = start;
    while i < line.len() && (line[i] == 32 || line[i] == 9 || line[i] == 10 || line[i] == 12
        || line[i] == 13)
        invariant
            start <= i <= line@.len(),
            forall|k: int| start <= k < i ==> is_space(#[trigger] line@[k]),
        decreases line@.len() - i,
    {
        i = i + 1;
    }
    i
}

/// A line splits in at most one way, and the scans find it.
proof fn lemma_split_found(line: Seq<u8>, a: int, b: int, a2: int, b2: int, c: int)
    requires
        splits_as(line, a2, b2),
        0 <= a <= b <= c <= line.len(),
        forall|i: int| 0 <= i < a ==> is_digit(#[trigger] line[i]),
        a == line.len() || !is_digit(line[a]),
        forall|i: int| a <= i < b ==> is_space(#[trigger] line[i]),
        b == line.len() || !is_space(line[b]),
        forall|i: int| b <= i < c ==> is_digit(#[trigger] line[i]),
        c == line.len() || !is_digit(line[c]),
    ensures
        a2 == a,
        b2 == b,
        c == line.len(),
{
    if a2 < a {
        assert(line.subrange(a2, b2)[0] == line[a2]);
    }
    if a2 > a {
        assert(line.take(a2)[a] == line[a]);
    }
    if b2 < b {
        assert(line.skip(b2)[0] == line[b2]);
    }
    if b2 > b {
        assert(line.subrange(a2, b2)[b - a2] == line[b]);
    }
    if c < line.len() {
        assert(line.skip(b2)[c - b2] == line[c]);
    }
}

/// Parses one line of the text format into a source and a destination.
/// Fails with `ParseError` when the line is not two runs of digits
/// separated by whitespace, or when a number exceeds the id type.
pub fn parse_edge_line<N: ValidGraphType>(line: &[u8]) -> (r: Result<(N, N), GraphError>)
    ensures
        r matches Ok((s, d)) ==> exists|a: int, b: int|
            #[trigger] splits_as(line@, a, b) && s.id() == decimal_value(line@.take(a))
                && d.id() == decimal_value(line@.skip(b)),
        r is Err ==> r == Err::<(N, N), GraphError>(GraphError::ParseError) && forall|a: int, b: int|
            #[trigger] splits_as(line@, a, b) ==> decimal_value(line@.take(a)) > N::max_id()
                || decimal_value(line@.skip(b)) > N::max_id(),
{
    let (a, v1) = scan_digits(line, 0);
    let b = scan_spaces(line, a);
    let (c, v2) = scan_digits(line, b);
    let ghost l = line@;
    proof {
        assert forall|a2: int, b2: int| #[trigger] splits_as(l, a2, b2) implies a2 == a && b2 == b
            && c == l.len() by {
            lemma_split_found(l, a as int, b as int, a2, b2, c as int);
        }
        assert(l.subrange(0, a as int) =~= l.take(a as int));
        assert(l.subrange(b as int, l.len() as int) =~= l.skip(b as int));
    }
    if a == 0 || b == a || c == b || c != line.len() {
        proof {
            assert forall|a2: int, b2: int| #[trigger] splits_as(l, a2, b2) implies false by {
                assert(a2 == a && b2 == b && c == l.len());
            }
        }
        return Err(GraphError::ParseError);
    }
    proof {
        assert(splits_as(l, a as int, b as int)) by {
            assert forall|i: int| 0 <= i < l.take(a as int).len() implies is_digit(
                #[trigger] l.take(a as int)[i],
            ) by {
                assert(l.take(a as int)[i] == l[i]);
            }
            assert forall|i: int| 0 <= i < l.subrange(a as int, b as int).len() implies is_space(
                #[trigger] l.subrange(a as int, b as int)[i],
            ) by {
                assert(l.subrange(a as int, b as int)[i] == l[a + i]);
            }
            assert forall|i: int| 0 <= i < l.skip(b as int).len() implies is_digit(
                #[trigger] l.skip(b as int)[i],
            ) by {
                assert(l.skip(b as int)[i] == l[b + i]);
            }
        }
        N::lemma_widths();
    }
    let s = match v1 {
        Some(x) => N::from_u64(x),
        None => None,
    };
    let d = match v2 {
        Some(x) => N::from_u64(x),
        None => None,
    };
    match (s, d) {
        (Some(s), Some(d)) => Ok((s, d)),
        _ => Err(GraphError::ParseError),
    }
}

} // verus!
