//! Executable text helpers for the codec: whitespace trimming, splitting a
//! text into its lines, and locating the first `=` of a line.  Each is
//! specified against the spec functions of `ini`.

use vstd::prelude::*;
use vstd::string::*;
use crate::ini::{
    is_ws, trim, split_lines, eq_pos, lemma_trim_at, lemma_line_end_at, lemma_eq_pos_at,
};

verus! {

/// Whether `c` counts as whitespace for trimming.
pub fn is_ws_char(c: char) -> (r: bool)
    ensures
        r == is_ws(c),
{
    c == ' ' || c == '\t' || c == '\r' || c == '\n'
}

/// `s` without leading or trailing whitespace.
pub fn trim_str(s: &str) -> (r: &str)
    ensures
        r@ == trim(s@),
{
    let n = s.unicode_len();
    let mut lo: usize = 0;
    while lo < n && is_ws_char(s.get_char(lo))
        invariant
            0 <= lo <= n,
            n == s@.len(),
            forall|j: int| 0 <= j < lo ==> is_ws(s@[j]),
        decreases n - lo,
    {
        lo = lo + 1;
    }
    let mut hi: usize = n;
    while hi > lo && is_ws_char(s.get_char(hi - 1))
        invariant
            lo <= hi <= n,
            n == s@.len(),
            forall|j: int| 0 <= j < lo ==> is_ws(s@[j]),
            lo < n ==> !is_ws(s@[lo as int]),
            forall|j: int| hi <= j < n ==> is_ws(s@[j]),
        decreases hi,
    {
        hi = hi - 1;
    }
    proof {
        lemma_trim_at(s@, lo as int, hi as int);
    }
    s.substring_char(lo, hi)
}

/// The lines of `s`, split on newlines.
pub fn split_lines_str<'a>(s: &'a str) -> (r: Vec<&'a str>)
    ensures
        r.deep_view() =~= split_lines(s@),
{
    let n = s.unicode_len();
    let mut r: Vec<&'a str> = Vec::new();
    proof {
        assert(s@.subrange(0, n as int) =~= s@);
        assert(r.deep_view() =~= Seq::<Seq<char>>::empty());
    }
    let mut start: usize = 0;
    let mut i: usize = 0;
    while i < n
        invariant
            0 <= start <= i <= n,
            n == s@.len(),
            forall|j: int| start <= j < i ==> s@[j] != '\n',
            split_lines(s@) =~= r.deep_view() + split_lines(
                s@.subrange(start as int, n as int),
            ),
        decreases n - i,
    {
        if s.get_char(i) == '\n' {
            let line = s.substring_char(start, i);
            proof {
                let rest = s@.subrange(start as int, n as int);
                let e = i - start;
                assert forall|j: int| 0 <= j < e implies rest[j] != '\n' by {
                    assert(rest[j] == s@[j + start]);
                }
                assert(rest[e as int] == s@[i as int]);
                lemma_line_end_at(rest, e as int);
                assert(rest.subrange(0, e as int) =~= line@);
                assert(rest.subrange(e as int + 1, rest.len() as int) =~= s@.subrange(
                    i as int + 1,
                    n as int,
                ));
                assert(split_lines(rest) =~= seq![line@] + split_lines(
                    s@.subrange(i as int + 1, n as int),
                ));
            }
            let ghost old_dv = r.deep_view();
            r.push(line);
            proof {
                assert(r.deep_view() =~= old_dv.push(line@));
            }
            start = i + 1;
        }
        i = i + 1;
    }
    if start < n {
        let line = s.substring_char(start, n);
        proof {
            let rest = s@.subrange(start as int, n as int);
            assert forall|j: int| 0 <= j < rest.len() implies rest[j] != '\n' by {
                assert(rest[j] == s@[j + start]);
            }
            lemma_line_end_at(rest, rest.len() as int);
            assert(rest =~= line@);
            assert(split_lines(rest) =~= seq![line@]);
        }
        let ghost old_dv = r.deep_view();
        r.push(line);
        proof {
            assert(r.deep_view() =~= old_dv.push(line@));
        }
    } else {
        proof {
            assert(s@.subrange(start as int, n as int).len() == 0);
        }
    }
    r
}

/// Index of the first `=` in `s`, or `s`'s length if there is none.
pub fn find_eq(s: &str) -> (r: usize)
    ensures
        r == eq_pos(s@),
        r <= s@.len(),
{
    let n = s.unicode_len();
    let mut i: usize = 0;
    while i < n && s.get_char(i) != '='
        invariant
            0 <= i <= n,
            n == s@.len(),
            forall|j: int| 0 <= j < i ==> s@[j] != '=',
        decreases n - i,
    {
        i = i + 1;
    }
    proof {
        lemma_eq_pos_at(s@, i as int);
    }
    i
}

} // verus!
