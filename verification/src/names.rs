//! Base-name extraction: the final segment of a path, eligible for grouping
//! only when it holds a `.` character.

use vstd::prelude::*;
use vstd::string::StrSliceExecFns;

verus! {

/// A character that separates path segments.
pub open spec fn is_sep(c: char) -> bool {
    c == '/' || c == '\\'
}

/// The base name of a path: the longest suffix that holds no separator.
pub open spec fn base_name_of(s: Seq<char>) -> Seq<char>
    decreases s.len(),
{
    if s.len() == 0 {
        Seq::empty()
    } else if is_sep(s.last()) {
        Seq::empty()
    } else {
        base_name_of(s.drop_last()).push(s.last())
    }
}

/// The key under which a path is grouped: its base name, but only when that
/// name holds a `.` character; names without one never join any group.
pub open spec fn spec_parse_file_name(s: Seq<char>) -> Option<Seq<char>> {
    if base_name_of(s).contains('.') {
        Some(base_name_of(s))
    } else {
        None
    }
}

/// When no separator stands at or after `cut`, and a separator stands just
/// before it (or the string starts there), the base name is the suffix from
/// `cut` on.
proof fn lemma_base_name_suffix(s: Seq<char>, cut: int)
    requires
        0 <= cut <= s.len(),
        forall|j: int| cut <= j < s.len() ==> !is_sep(#[trigger] s[j]),
        cut > 0 ==> is_sep(s[cut - 1]),
    ensures
        base_name_of(s) == s.subrange(cut, s.len() as int),
    decreases s.len(),
{
    if cut == s.len() {
        if s.len() == 0 {
            assert(base_name_of(s) =~= s.subrange(cut, s.len() as int));
        } else {
            assert(is_sep(s.last()));
            assert(base_name_of(s) =~= s.subrange(cut, s.len() as int));
        }
    } else {
        assert(!is_sep(s.last()));
        let t = s.drop_last();
        assert forall|j: int| cut <= j < t.len() implies !is_sep(#[trigger] t[j]) by {
            assert(t[j] == s[j]);
        }
        if cut > 0 {
            assert(t[cut - 1] == s[cut - 1]);
        }
        lemma_base_name_suffix(t, cut);
        assert(s.subrange(cut, s.len() as int) =~= t.subrange(cut, t.len() as int).push(
            s.last(),
        ));
    }
}

/// The characters of a string, as a vector.
pub(crate) fn chars_of(s: &str) -> (v: Vec<char>)
    ensures
        v@ == s@,
{
    let n = s.unicode_len();
    let mut v: Vec<char> = Vec::new();
    let mut i: usize = 0;
    while i < n
        invariant
            n == s@.len(),
            i <= n,
            v@ == s@.subrange(0, i as int),
        decreases n - i,
    {
        v.push(s.get_char(i));
        i = i + 1;
        proof {
            assert(v@ =~= s@.subrange(0, i as int));
        }
    }
    proof {
        assert(v@ =~= s@);
    }
    v
}

/// Extracts the final path segment of `file_path` and yields it only when it
/// holds a `.` character.
pub fn parse_file_name(file_path: &str) -> (r: Option<String>)
    ensures
        r.deep_view() == spec_parse_file_name(file_path@),
{
    let n = file_path.unicode_len();
    let mut cut: usize = 0;
    let mut i: usize = 0;
    while i < n
        invariant
            n == file_path@.len(),
            i <= n,
            cut <= i,
            forall|j: int| cut <= j < i ==> !is_sep(#[trigger] file_path@[j]),
            cut > 0 ==> is_sep(file_path@[cut - 1]),
        decreases n - i,
    {
        let c = file_path.get_char(i);
        if c == '/' || c == '\\' {
            cut = i + 1;
        }
        i = i + 1;
    }
    proof {
        lemma_base_name_suffix(file_path@, cut as int);
    }
    let mut has_dot = false;
    let mut k: usize = cut;
    while k < n
        invariant
            n == file_path@.len(),
            cut <= k <= n,
            has_dot == exists|j: int| cut <= j < k && #[trigger] file_path@[j] == '.',
        decreases n - k,
    {
        if file_path.get_char(k) == '.' {
            has_dot = true;
        }
        k = k + 1;
    }
    proof {
        let base = file_path@.subrange(cut as int, n as int);
        if has_dot {
            let j = choose|j: int| cut <= j < n && #[trigger] file_path@[j] == '.';
            assert(base[j - cut] == '.');
            assert(base.contains('.'));
        } else {
            if base.contains('.') {
                let j = choose|j: int| 0 <= j < base.len() && #[trigger] base[j] == '.';
                assert(file_path@[j + cut] == '.');
            }
        }
    }
    if has_dot {
        Some(file_path.substring_char(cut, n).to_owned())
    } else {
        None
    }
}

} // verus!
