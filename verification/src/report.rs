//! The report text: what the tool prints for a table of duplicate groups.

use vstd::prelude::*;
use vstd::string::StrSliceExecFns;
use vstd::string::StringExecFns;

use crate::grouping::Group;
use crate::grouping::GroupTable;

verus! {

/// The decimal digit character of `d`.
pub open spec fn digit_char(d: nat) -> char {
    if d == 0 {
        '0'
    } else if d == 1 {
        '1'
    } else if d == 2 {
        '2'
    } else if d == 3 {
        '3'
    } else if d == 4 {
        '4'
    } else if d == 5 {
        '5'
    } else if d == 6 {
        '6'
    } else if d == 7 {
        '7'
    } else if d == 8 {
        '8'
    } else {
        '9'
    }
}

/// The decimal numeral of `n`, most significant digit first.
pub open spec fn dec_rep(n: nat) -> Seq<char>
    decreases n,
{
    if n < 10 {
        seq![digit_char(n)]
    } else {
        dec_rep(n / 10).push(digit_char(n % 10))
    }
}

fn digit_str(d: u64) -> (r: &'static str)
    requires
        d < 10,
    ensures
        r@ == seq![digit_char(d as nat)],
{
    let r = if d == 0 {
        "0"
    } else if d == 1 {
        "1"
    } else if d == 2 {
        "2"
    } else if d == 3 {
        "3"
    } else if d == 4 {
        "4"
    } else if d == 5 {
        "5"
    } else if d == 6 {
        "6"
    } else if d == 7 {
        "7"
    } else if d == 8 {
        "8"
    } else {
        "9"
    };
    proof {
        reveal_strlit("0");
        reveal_strlit("1");
        reveal_strlit("2");
        reveal_strlit("3");
        reveal_strlit("4");
        reveal_strlit("5");
        reveal_strlit("6");
        reveal_strlit("7");
        reveal_strlit("8");
        reveal_strlit("9");
        assert(r@ =~= seq![digit_char(d as nat)]);
    }
    r
}

/// Writes `n` in decimal.
pub fn u64_to_string(n: u64) -> (r: String)
    ensures
        r@ == dec_rep(n as nat),
    decreases n,
{
    if n < 10 {
        digit_str(n).to_owned()
    } else {
        let mut s = u64_to_string(n / 10);
        s.append(digit_str(n % 10));
        proof {
            assert(s@ =~= dec_rep(n as nat));
        }
        s
    }
}

/// One report line per path of a group.
pub open spec fn paths_text(ps: Seq<Seq<char>>) -> Seq<char>
    decreases ps.len(),
{
    if ps.len() == 0 {
        Seq::empty()
    } else {
        paths_text(ps.drop_last()) + "  - "@ + ps.last() + "\n"@
    }
}

/// The report block for one group: its name line, its path lines, and a
/// blank line.
pub open spec fn group_text(g: Group) -> Seq<char> {
    "File: "@ + g.key() + "\n"@ + paths_text(g.members()) + "\n"@
}

/// The report blocks for a run of groups.
pub open spec fn groups_text(gs: Seq<Group>) -> Seq<char>
    decreases gs.len(),
{
    if gs.len() == 0 {
        Seq::empty()
    } else {
        groups_text(gs.drop_last()) + group_text(gs.last())
    }
}

/// The whole report: a fixed line for an empty table, else a count line
/// followed by each group's block.
pub open spec fn report_text(t: GroupTable) -> Seq<char> {
    if t.groups@.len() == 0 {
        "No duplicate files found.\n"@
    } else {
        "Found "@ + dec_rep(t.groups@.len()) + " sets of duplicate files:\n"@ + groups_text(
            t.groups@,
        )
    }
}

fn append_paths(s: &mut String, ps: &Vec<String>)
    ensures
        final(s)@ == old(s)@ + paths_text(ps.deep_view()),
{
    let ghost base = s@;
    let m = ps.len();
    let mut j: usize = 0;
    while j < m
        invariant
            m == ps@.len(),
            j <= m,
            s@ == base + paths_text(ps.deep_view().subrange(0, j as int)),
        decreases m - j,
    {
        s.append("  - ");
        s.append(ps[j].as_str());
        s.append("\n");
        proof {
            let dv = ps.deep_view();
            let sub = dv.subrange(0, j as int + 1);
            assert(sub.drop_last() =~= dv.subrange(0, j as int));
            assert(sub.last() == dv[j as int]);
            assert(s@ =~= base + paths_text(sub));
        }
        j = j + 1;
    }
    proof {
        assert(ps.deep_view().subrange(0, m as int) =~= ps.deep_view());
    }
}

fn append_group(s: &mut String, g: &Group)
    ensures
        final(s)@ == old(s)@ + group_text(*g),
{
    let ghost base = s@;
    s.append("File: ");
    s.append(g.name.as_str());
    s.append("\n");
    append_paths(s, &g.paths);
    s.append("\n");
    proof {
        assert(s@ =~= base + group_text(*g));
    }
}

/// Renders the report for `t`.
pub fn render_report(t: &GroupTable) -> (r: String)
    ensures
        r@ == report_text(*t),
{
    let n = t.groups.len();
    if n == 0 {
        return "No duplicate files found.\n".to_owned();
    }
    let mut s = "Found ".to_owned();
    let count = u64_to_string(n as u64);
    s.append(count.as_str());
    s.append(" sets of duplicate files:\n");
    let ghost header = "Found "@ + dec_rep(t.groups@.len()) + " sets of duplicate files:\n"@;
    proof {
        assert(n as u64 as nat == t.groups@.len());
        assert(s@ =~= header);
        assert(t.groups@.subrange(0, 0) =~= Seq::<Group>::empty());
    }
    let mut i: usize = 0;
    while i < n
        invariant
            n == t.groups@.len(),
            i <= n,
            header == "Found "@ + dec_rep(t.groups@.len()) + " sets of duplicate files:\n"@,
            s@ == header + groups_text(t.groups@.subrange(0, i as int)),
        decreases n - i,
    {
        append_group(&mut s, &t.groups[i]);
        proof {
            let sub = t.groups@.subrange(0, i as int + 1);
            assert(sub.drop_last() =~= t.groups@.subrange(0, i as int));
            assert(sub.last() == t.groups@[i as int]);
            assert(s@ =~= header + groups_text(sub));
        }
        i = i + 1;
    }
    proof {
        assert(t.groups@.subrange(0, n as int) =~= t.groups@);
    }
    s
}

} // verus!
