//! Ignore patterns from a file's text: one pattern per line, a trailing
//! carriage return stripped, empty lines dropped.

use vstd::prelude::*;
use vstd::string::StrSliceExecFns;

use crate::names::chars_of;

verus! {

/// The position of the first `'\n'` in `s`, or its length when it holds
/// none.
pub open spec fn first_nl(s: Seq<char>) -> nat
    decreases s.len(),
{
    if s.len() == 0 {
        0
    } else if s[0] == '\n' {
        0
    } else {
        1 + first_nl(s.subrange(1, s.len() as int))
    }
}

/// A line with one trailing `'\r'` stripped.
pub open spec fn clean_line(l: Seq<char>) -> Seq<char> {
    if l.len() > 0 && l.last() == '\r' {
        l.drop_last()
    } else {
        l
    }
}

/// A cleaned line as a pattern list: itself when something is left, nothing
/// otherwise.
pub open spec fn one_line(l: Seq<char>) -> Seq<Seq<char>> {
    if clean_line(l).len() == 0 {
        Seq::empty()
    } else {
        seq![clean_line(l)]
    }
}

/// The ignore patterns held in `s`: its nonempty cleaned lines, in order.
pub open spec fn ignore_lines_of(s: Seq<char>) -> Seq<Seq<char>>
    decreases s.len(),
{
    if s.len() == 0 {
        Seq::empty()
    } else {
        let k = first_nl(s);
        if k >= s.len() {
            one_line(s)
        } else {
            one_line(s.subrange(0, k as int)) + ignore_lines_of(
                s.subrange(k as int + 1, s.len() as int),
            )
        }
    }
}

/// When no newline stands before `k` and one stands at `k` (or `k` is the
/// length), the first newline is at `k`.
proof fn lemma_first_nl_at(s: Seq<char>, k: int)
    requires
        0 <= k <= s.len(),
        forall|t: int| 0 <= t < k ==> #[trigger] s[t] != '\n',
        k < s.len() ==> s[k] == '\n',
    ensures
        first_nl(s) == k,
    decreases s.len(),
{
    if k == 0 {
    } else {
        let s1 = s.subrange(1, s.len() as int);
        assert forall|t: int| 0 <= t < k - 1 implies #[trigger] s1[t] != '\n' by {
            assert(s1[t] == s[t + 1]);
        }
        if k - 1 < s1.len() {
            assert(s1[k - 1] == s[k]);
        }
        lemma_first_nl_at(s1, k - 1);
    }
}

/// Splits `content` into its nonempty lines, dropping one trailing `'\r'`
/// from each.
pub fn ignore_lines(content: &str) -> (r: Vec<String>)
    ensures
        r.deep_view() == ignore_lines_of(content@),
{
    let n = content.unicode_len();
    let v = chars_of(content);
    let mut r: Vec<String> = Vec::new();
    let mut start: usize = 0;
    proof {
        assert(r.deep_view() =~= Seq::<Seq<char>>::empty());
        assert(content@.subrange(0, n as int) =~= content@);
        assert(r.deep_view() + ignore_lines_of(content@.subrange(0, n as int))
            =~= ignore_lines_of(content@));
    }
    while start < n
        invariant
            n == content@.len(),
            v@ == content@,
            start <= n,
            ignore_lines_of(content@) == r.deep_view() + ignore_lines_of(
                content@.subrange(start as int, n as int),
            ),
        decreases n - start,
    {
        let ghost suffix = content@.subrange(start as int, n as int);
        let mut e: usize = start;
        while e < n && v[e] != '\n'
            invariant
                n == content@.len(),
                v@ == content@,
                start <= e <= n,
                forall|t: int| start <= t < e ==> #[trigger] content@[t] != '\n',
            decreases n - e,
        {
            e = e + 1;
        }
        proof {
            assert forall|t: int| 0 <= t < e - start implies #[trigger] suffix[t] != '\n' by {
                assert(suffix[t] == content@[t + start]);
            }
            if (e as int - start as int) < suffix.len() {
                assert(suffix[e as int - start as int] == content@[e as int]);
            }
            lemma_first_nl_at(suffix, e as int - start as int);
        }
        let mut le = e;
        if le > start && v[le - 1] == '\r' {
            le = le - 1;
        }
        let ghost line = content@.subrange(start as int, e as int);
        proof {
            assert(clean_line(line) =~= content@.subrange(start as int, le as int));
        }
        let ghost before = r.deep_view();
        if le > start {
            r.push(content.substring_char(start, le).to_owned());
            proof {
                assert(r.deep_view() =~= before.push(content@.subrange(
                    start as int,
                    le as int,
                )));
            }
        }
        proof {
            if e < n {
                assert(suffix.subrange(0, e as int - start as int) =~= line);
                assert(suffix.subrange(e as int - start as int + 1, suffix.len() as int)
                    =~= content@.subrange(e as int + 1, n as int));
                assert(ignore_lines_of(suffix) == one_line(line) + ignore_lines_of(
                    content@.subrange(e as int + 1, n as int),
                ));
            } else {
                assert(suffix =~= line);
                assert(ignore_lines_of(suffix) == one_line(line));
                assert(ignore_lines_of(content@.subrange(n as int, n as int))
                    =~= Seq::<Seq<char>>::empty());
            }
            if le > start {
                assert(one_line(line) =~= seq![clean_line(line)]);
                assert(r.deep_view() =~= before + one_line(line));
            } else {
                assert(clean_line(line).len() == 0);
                assert(r.deep_view() =~= before + one_line(line));
            }
            let rest_from = if e < n {
                e as int + 1
            } else {
                n as int
            };
            assert(ignore_lines_of(content@) =~= r.deep_view() + ignore_lines_of(
                content@.subrange(rest_from, n as int),
            ));
        }
        if e < n {
            start = e + 1;
        } else {
            start = n;
        }
    }
    proof {
        assert(content@.subrange(n as int, n as int) =~= Seq::<char>::empty());
        assert(ignore_lines_of(content@) =~= r.deep_view());
    }
    r
}

} // verus!
