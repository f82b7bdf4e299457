//! The pieces of an edge-list text: lines, whitespace-separated tokens and
//! decimal numbers.

use crate::matrix::views;
use vstd::prelude::*;

verus! {

/// A byte that separates tokens: space, tab or carriage return.
pub open spec fn is_sep(c: u8) -> bool {
    c == 32 || c == 9 || c == 13
}

/// The lines of `s` finished by a newline, and the line still being read.
pub open spec fn split_lines(s: Seq<u8>) -> (Seq<Seq<u8>>, Seq<u8>)
    decreases s.len(),
{
    if s.len() == 0 {
        (Seq::empty(), Seq::empty())
    } else {
        let (done, cur) = split_lines(s.drop_last());
        if s.last() == 10 {
            (done.push(cur), Seq::empty())
        } else {
            (done, cur.push(s.last()))
        }
    }
}

/// The lines of `s`; a last line without newline counts when it is not empty.
pub open spec fn lines(s: Seq<u8>) -> Seq<Seq<u8>> {
    let (done, cur) = split_lines(s);
    if cur.len() == 0 {
        done
    } else {
        done.push(cur)
    }
}

/// The finished tokens of `s`, and the token still being read.
pub open spec fn split_tokens(s: Seq<u8>) -> (Seq<Seq<u8>>, Seq<u8>)
    decreases s.len(),
{
    if s.len() == 0 {
        (Seq::empty(), Seq::empty())
    } else {
        let (done, cur) = split_tokens(s.drop_last());
        if is_sep(s.last()) {
            if cur.len() == 0 {
                (done, cur)
            } else {
                (done.push(cur), Seq::empty())
            }
        } else {
            (done, cur.push(s.last()))
        }
    }
}

/// The maximal runs of non-separator bytes of `s`.
pub open spec fn tokens(s: Seq<u8>) -> Seq<Seq<u8>> {
    let (done, cur) = split_tokens(s);
    if cur.len() == 0 {
        done
    } else {
        done.push(cur)
    }
}

/// The value of a string of decimal digits.
pub open spec fn decimal(t: Seq<u8>) -> int
    decreases t.len(),
{
    if t.len() == 0 {
        0
    } else {
        decimal(t.drop_last()) * 10 + (t.last() - 48)
    }
}

/// The number written by `t`: one to nine decimal digits.
pub open spec fn number(t: Seq<u8>) -> Option<int> {
    if 1 <= t.len() <= 9 && forall|i: int| 0 <= i < t.len() ==> 48 <= #[trigger] t[i] <= 57 {
        Some(decimal(t))
    } else {
        None
    }
}

/// `10^e`.
pub open spec fn pow10(e: nat) -> int
    decreases e,
{
    if e == 0 {
        1
    } else {
        10 * pow10((e - 1) as nat)
    }
}

/// Splits `s` into its lines.
pub fn split_into_lines(s: &[u8]) -> (r: Vec<Vec<u8>>)
    ensures
        views(r@) == lines(s@),
{
    let mut done: Vec<Vec<u8>> = Vec::new();
    let mut cur: Vec<u8> = Vec::new();
    let mut i: usize = 0;
    while i < s.len()
        invariant
            i <= s.len(),
            (views(done@), cur@) == split_lines(s@.subrange(0, i as int)),
        decreases s.len() - i,
    {
        assert(s@.subrange(0, i + 1).drop_last() =~= s@.subrange(0, i as int));
        assert(s@.subrange(0, i + 1).last() == s@[i as int]);
        if s[i] == 10 {
            let ghost before = views(done@);
            done.push(cur);
            assert(views(done@) =~= before.push(cur@));
            cur = Vec::new();
            assert(cur@ =~= Seq::<u8>::empty());
        } else {
            cur.push(s[i]);
        }
        i = i + 1;
    }
    assert(s@.subrange(0, i as int) =~= s@);
    if cur.len() > 0 {
        let ghost before = views(done@);
        done.push(cur);
        assert(views(done@) =~= before.push(cur@));
    }
    done
}

/// Splits a line into its tokens.
pub fn split_into_tokens(s: &Vec<u8>) -> (r: Vec<Vec<u8>>)
    ensures
        views(r@) == tokens(s@),
{
    let mut done: Vec<Vec<u8>> = Vec::new();
    let mut cur: Vec<u8> = Vec::new();
    let mut i: usize = 0;
    while i < s.len()
        invariant
            i <= s.len(),
            (views(done@), cur@) == split_tokens(s@.subrange(0, i as int)),
        decreases s.len() - i,
    {
        assert(s@.subrange(0, i + 1).drop_last() =~= s@.subrange(0, i as int));
        assert(s@.subrange(0, i + 1).last() == s@[i as int]);
        let c = s[i];
        if c == 32 || c == 9 || c == 13 {
            if cur.len() > 0 {
                let ghost before = views(done@);
                done.push(cur);
                assert(views(done@) =~= before.push(cur@));
                cur = Vec::new();
                assert(cur@ =~= Seq::<u8>::empty());
            }
        } else {
            cur.push(c);
        }
        i = i + 1;
    }
    assert(s@.subrange(0, i as int) =~= s@);
    if cur.len() > 0 {
        let ghost before = views(done@);
        done.push(cur);
        assert(views(done@) =~= before.push(cur@));
    }
    done
}

/// Reads a number of one to nine decimal digits.
pub fn parse_number(t: &Vec<u8>) -> (r: Option<usize>)
    ensures
        r is Some <==> number(t@) is Some,
        r matches Some(v) ==> v == number(t@).unwrap() && v < 1_000_000_000,
{
    if t.len() == 0 || t.len() > 9 {
        return None;
    }
    let mut v: usize = 0;
    let mut i: usize = 0;
    while i < t.len()
        invariant
            1 <= t.len() <= 9,
            i <= t.len(),
            forall|q: int| 0 <= q < i ==> 48 <= #[trigger] t@[q] <= 57,
            v == decimal(t@.subrange(0, i as int)),
            v < pow10(i as nat),
        decreases t.len() - i,
    {
        let c = t[i];
        if c < 48 || c > 57 {
            return None;
        }
        let ghost p = t@.subrange(0, i + 1);
        assert(p.drop_last() =~= t@.subrange(0, i as int));
        assert(p.last() == c);
        assert(pow10(i as nat) <= 100_000_000) by {
            reveal_with_fuel(pow10, 10);
        }
        v = v * 10 + (c - 48) as usize;
        i = i + 1;
    }
    assert(t@.subrange(0, i as int) =~= t@);
    assert(pow10(9) == 1_000_000_000) by {
        reveal_with_fuel(pow10, 10);
    }
    assert(pow10(i as nat) <= 1_000_000_000) by {
        reveal_with_fuel(pow10, 10);
    }
    Some(v)
}

/// The token `%`.
pub open spec fn is_percent(t: Seq<u8>) -> bool {
    t == seq![37u8]
}

/// The tokens of `ts` other than `%`.
pub open spec fn without_percent(ts: Seq<Seq<u8>>) -> Seq<Seq<u8>>
    decreases ts.len(),
{
    if ts.len() == 0 {
        Seq::empty()
    } else if is_percent(ts.last()) {
        without_percent(ts.drop_last())
    } else {
        without_percent(ts.drop_last()).push(ts.last())
    }
}

/// The vertex count of an edge list: the second number of its second line;
/// a third number there, when present, must repeat it.
pub open spec fn tsv_order(s: Seq<u8>) -> Option<int> {
    let ls = lines(s);
    if ls.len() < 2 {
        None
    } else {
        let ds = without_percent(tokens(ls[1]));
        if ds.len() < 2 || number(ds[1]) is None {
            None
        } else if ds.len() >= 3 && number(ds[2]) != number(ds[1]) {
            None
        } else {
            number(ds[1])
        }
    }
}

/// A comment line, starting with `%`.
pub open spec fn is_comment(line: Seq<u8>) -> bool {
    line.len() > 0 && line[0] == 37
}

/// A line that names an edge: neither a comment nor blank.
pub open spec fn is_edge_line(line: Seq<u8>) -> bool {
    !is_comment(line) && tokens(line).len() > 0
}

/// A body line is a comment, blank, or starts with two vertex numbers in `1..=n`.
pub open spec fn line_ok(line: Seq<u8>, n: int) -> bool {
    is_edge_line(line) ==> {
        let ts = tokens(line);
        &&& ts.len() >= 2
        &&& number(ts[0]) matches Some(a) && 1 <= a <= n
        &&& number(ts[1]) matches Some(b) && 1 <= b <= n
    }
}

/// The line names the edge `i → j` (vertices counted from 0).
pub open spec fn line_edge(line: Seq<u8>, i: int, j: int) -> bool {
    is_edge_line(line) && tokens(line).len() >= 2 && number(tokens(line)[0]) == Some(i + 1) && number(
        tokens(line)[1],
    ) == Some(j + 1)
}

/// Body lines `2..q` are all well formed.
pub open spec fn lines_ok(ls: Seq<Seq<u8>>, q: int, n: int) -> bool
    decreases q,
{
    if q <= 2 {
        true
    } else {
        lines_ok(ls, q - 1, n) && line_ok(ls[q - 1], n)
    }
}

/// One of the body lines `2..q` names the edge `i → j`.
pub open spec fn edge_before(ls: Seq<Seq<u8>>, q: int, i: int, j: int) -> bool
    decreases q,
{
    if q <= 2 {
        false
    } else {
        edge_before(ls, q - 1, i, j) || line_edge(ls[q - 1], i, j)
    }
}

/// The text is a well-formed edge list.
pub open spec fn tsv_valid(s: Seq<u8>) -> bool {
    match tsv_order(s) {
        Some(n) => lines_ok(lines(s), lines(s).len() as int, n),
        None => false,
    }
}

/// The edge list names the edge `i → j`.
pub open spec fn tsv_edge(s: Seq<u8>, i: int, j: int) -> bool {
    edge_before(lines(s), lines(s).len() as int, i, j)
}

} // verus!
