//! The guarantees of the grouping, stated over any table that matches it.

use vstd::prelude::*;

use crate::grouping::GroupTable;
use crate::grouping::group_for;
use crate::grouping::has_substring;
use crate::grouping::is_grouped_under;
use crate::grouping::is_ignored;
use crate::grouping::lemma_group_keeps_order;
use crate::grouping::lemma_group_member_grouped;
use crate::grouping::lemma_group_two_sources;
use crate::grouping::table_matches;
use crate::names::base_name_of;
use crate::names::spec_parse_file_name;

verus! {

/// When no two entries share an eligible base name, the table is empty.
pub proof fn lemma_no_collisions_empty(
    t: GroupTable,
    paths: Seq<Seq<char>>,
    ignores: Seq<Seq<char>>,
)
    requires
        table_matches(t, paths, ignores),
        forall|i: int, j: int|
            #![trigger paths[i], paths[j]]
            0 <= i < j < paths.len() ==> !(spec_parse_file_name(paths[i]) is Some
                && spec_parse_file_name(paths[i]) == spec_parse_file_name(paths[j])),
    ensures
        t.groups@.len() == 0,
{
    if t.groups@.len() > 0 {
        let name = t.groups@[0].key();
        assert(t.groups@[0].members() == group_for(paths, ignores, name));
        lemma_group_two_sources(paths, ignores, name);
        let (i, j) = choose|i: int, j: int|
            #![trigger paths[i], paths[j]]
            0 <= i < j < paths.len() && is_grouped_under(paths[i], ignores, name)
                && is_grouped_under(paths[j], ignores, name);
        assert(spec_parse_file_name(paths[i]) == Some(name));
        assert(spec_parse_file_name(paths[j]) == Some(name));
        assert(false);
    }
}

/// Two surviving entries that share an eligible base name stand together in
/// the group of that name, in traversal order.
pub proof fn lemma_duplicates_share_group(
    t: GroupTable,
    paths: Seq<Seq<char>>,
    ignores: Seq<Seq<char>>,
    name: Seq<char>,
    i: int,
    j: int,
)
    requires
        table_matches(t, paths, ignores),
        0 <= i < j < paths.len(),
        is_grouped_under(paths[i], ignores, name),
        is_grouped_under(paths[j], ignores, name),
    ensures
        t.contains_key(name),
        t.members_of(name) == group_for(paths, ignores, name),
        exists|a: int, b: int|
            #![trigger t.members_of(name)[a], t.members_of(name)[b]]
            0 <= a < b < t.members_of(name).len() && t.members_of(name)[a] == paths[i]
                && t.members_of(name)[b] == paths[j],
{
    lemma_group_keeps_order(paths, ignores, name, i, j);
    let g = group_for(paths, ignores, name);
    assert(g.len() >= 2);
    assert(t.contains_key(name));
    let w = t.index_of(name);
    assert(0 <= w < t.groups@.len() && t.groups@[w].key() == name);
    assert(t.members_of(name) == g);
    let (a, b) = choose|a: int, b: int|
        #![trigger g[a], g[b]]
        0 <= a < b < g.len() && g[a] == paths[i] && g[b] == paths[j];
    assert(t.members_of(name)[a] == paths[i] && t.members_of(name)[b] == paths[j]);
}

/// The grouping is a function of the walked paths and the ignore patterns
/// alone: two tables built over the same input agree as maps, however their
/// groups are ordered.
pub proof fn lemma_grouping_deterministic(
    t1: GroupTable,
    t2: GroupTable,
    paths: Seq<Seq<char>>,
    ignores: Seq<Seq<char>>,
)
    requires
        table_matches(t1, paths, ignores),
        table_matches(t2, paths, ignores),
    ensures
        t1.as_map() == t2.as_map(),
{
    assert forall|name: Seq<char>| t1.contains_key(name) implies t2.contains_key(name)
        && t1.members_of(name) == t2.members_of(name) by {
        let w = t1.index_of(name);
        assert(0 <= w < t1.groups@.len() && t1.groups@[w].key() == name);
        assert(t1.members_of(name) == group_for(paths, ignores, name));
        assert(group_for(paths, ignores, name).len() >= 2);
        assert(t2.contains_key(name));
        let v = t2.index_of(name);
        assert(0 <= v < t2.groups@.len() && t2.groups@[v].key() == name);
        assert(t2.members_of(name) == group_for(paths, ignores, name));
    }
    assert forall|name: Seq<char>| t2.contains_key(name) implies t1.contains_key(name) by {
        let v = t2.index_of(name);
        assert(0 <= v < t2.groups@.len() && t2.groups@[v].key() == name);
        assert(t2.members_of(name) == group_for(paths, ignores, name));
        assert(group_for(paths, ignores, name).len() >= 2);
    }
    assert(t1.as_map() =~= t2.as_map());
}

/// A path within which an ignore pattern stands belongs to no group.
pub proof fn lemma_ignored_excluded(
    t: GroupTable,
    paths: Seq<Seq<char>>,
    ignores: Seq<Seq<char>>,
    p: Seq<char>,
    k: int,
)
    requires
        table_matches(t, paths, ignores),
        0 <= k < ignores.len(),
        has_substring(p, ignores[k]),
    ensures
        forall|i: int|
            0 <= i < t.groups@.len() ==> !(#[trigger] t.groups@[i]).members().contains(p),
{
    assert(is_ignored(p, ignores));
    assert forall|i: int|
        0 <= i < t.groups@.len() implies !t.groups@[i].members().contains(p) by {
        let name = t.groups@[i].key();
        let g = group_for(paths, ignores, name);
        assert(t.groups@[i].members() == g);
        if g.contains(p) {
            let a = choose|a: int| 0 <= a < g.len() && g[a] == p;
            lemma_group_member_grouped(paths, ignores, name, a);
            assert(!is_ignored(p, ignores));
        }
    }
}

/// A path whose base name holds no `.` belongs to no group.
pub proof fn lemma_extensionless_excluded(
    t: GroupTable,
    paths: Seq<Seq<char>>,
    ignores: Seq<Seq<char>>,
    p: Seq<char>,
)
    requires
        table_matches(t, paths, ignores),
        !base_name_of(p).contains('.'),
    ensures
        forall|i: int|
            0 <= i < t.groups@.len() ==> !(#[trigger] t.groups@[i]).members().contains(p),
{
    assert forall|i: int|
        0 <= i < t.groups@.len() implies !t.groups@[i].members().contains(p) by {
        let name = t.groups@[i].key();
        let g = group_for(paths, ignores, name);
        assert(t.groups@[i].members() == g);
        if g.contains(p) {
            let a = choose|a: int| 0 <= a < g.len() && g[a] == p;
            lemma_group_member_grouped(paths, ignores, name, a);
            assert(spec_parse_file_name(p) is Some);
        }
    }
}

} // verus!
