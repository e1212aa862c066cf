//! Grouping: bucket the surviving paths by base name and keep the buckets
//! that hold at least two paths.

use vstd::prelude::*;
use vstd::string::StrSliceExecFns;

use crate::names::chars_of;
use crate::names::parse_file_name;
use crate::names::spec_parse_file_name;

verus! {

/// `needle` stands in `hay` starting at position `i`.
pub open spec fn matches_at(hay: Seq<char>, needle: Seq<char>, i: int) -> bool {
    &&& 0 <= i
    &&& i + needle.len() <= hay.len()
    &&& hay.subrange(i, i + needle.len() as int) == needle
}

/// `needle` stands somewhere within `hay`.
pub open spec fn has_substring(hay: Seq<char>, needle: Seq<char>) -> bool {
    exists|i: int| matches_at(hay, needle, i)
}

/// A path is ignored when any ignore pattern stands somewhere within it.
pub open spec fn is_ignored(path: Seq<char>, ignores: Seq<Seq<char>>) -> bool {
    exists|k: int| 0 <= k < ignores.len() && has_substring(path, #[trigger] ignores[k])
}

fn matches_at_exec(hay: &Vec<char>, needle: &Vec<char>, i: usize) -> (b: bool)
    requires
        i + needle@.len() <= hay@.len(),
    ensures
        b == matches_at(hay@, needle@, i as int),
{
    let m = needle.len();
    let hl = hay.len();
    let mut j: usize = 0;
    while j < m
        invariant
            m == needle@.len(),
            hl == hay@.len(),
            i + m <= hl,
            j <= m,
            forall|t: int| 0 <= t < j ==> hay@[i + t] == #[trigger] needle@[t],
        decreases m - j,
    {
        if hay[i + j] != needle[j] {
            proof {
                if matches_at(hay@, needle@, i as int) {
                    assert(hay@.subrange(i as int, i + m as int)[j as int] == needle@[
                        j as int
                    ]);
                }
            }
            return false;
        }
        j = j + 1;
    }
    proof {
        assert(hay@.subrange(i as int, i + m as int) =~= needle@);
    }
    true
}

fn has_substring_exec(hay: &Vec<char>, needle: &Vec<char>) -> (b: bool)
    ensures
        b == has_substring(hay@, needle@),
{
    let hl = hay.len();
    let nl = needle.len();
    if nl > hl {
        proof {
            if has_substring(hay@, needle@) {
                let i = choose|i: int| matches_at(hay@, needle@, i);
                assert(i + nl <= hl);
            }
        }
        return false;
    }
    if nl == 0 {
        proof {
            assert(hay@.subrange(0, 0) =~= needle@);
            assert(matches_at(hay@, needle@, 0));
        }
        return true;
    }
    let last = hl - nl;
    let mut i: usize = 0;
    while i <= last
        invariant
            hl == hay@.len(),
            nl == needle@.len(),
            1 <= nl <= hl,
            last == hl - nl,
            i <= last + 1,
            forall|t: int| 0 <= t < i ==> !matches_at(hay@, needle@, t),
        decreases last + 1 - i,
    {
        if matches_at_exec(hay, needle, i) {
            assert(has_substring(hay@, needle@));
            return true;
        }
        i = i + 1;
    }
    proof {
        if has_substring(hay@, needle@) {
            let t = choose|t: int| matches_at(hay@, needle@, t);
            assert(t <= last as int);
        }
    }
    false
}

/// Does any ignore pattern stand within the path?
pub fn is_ignored_path(path: &str, ignores: &Vec<String>) -> (b: bool)
    ensures
        b == is_ignored(path@, ignores.deep_view()),
{
    let p = chars_of(path);
    let n = ignores.len();
    let mut k: usize = 0;
    while k < n
        invariant
            n == ignores@.len(),
            p@ == path@,
            k <= n,
            forall|t: int| 0 <= t < k ==> !has_substring(path@, #[trigger] ignores.deep_view()[t]),
        decreases n - k,
    {
        let pat = chars_of(ignores[k].as_str());
        proof {
            assert(ignores.deep_view()[k as int] == ignores@[k as int]@);
        }
        if has_substring_exec(&p, &pat) {
            assert(is_ignored(path@, ignores.deep_view()));
            return true;
        }
        k = k + 1;
    }
    proof {
        if is_ignored(path@, ignores.deep_view()) {
            let t = choose|t: int|
                0 <= t < ignores.deep_view().len() && has_substring(
                    path@,
                    #[trigger] ignores.deep_view()[t],
                );
            assert(!has_substring(path@, ignores.deep_view()[t]));
        }
    }
    false
}

/// The path survives the ignore filter and its eligible base name is `name`.
pub open spec fn is_grouped_under(path: Seq<char>, ignores: Seq<Seq<char>>, name: Seq<char>) -> bool {
    &&& !is_ignored(path, ignores)
    &&& spec_parse_file_name(path) == Some(name)
}

/// All surviving paths whose eligible base name is `name`, in traversal
/// order.
pub open spec fn group_for(paths: Seq<Seq<char>>, ignores: Seq<Seq<char>>, name: Seq<char>) -> Seq<
    Seq<char>,
> {
    paths.filter(|p: Seq<char>| is_grouped_under(p, ignores, name))
}

/// One bucket of the result: a base name and the full paths that share it.
pub struct Group {
    pub name: String,
    pub paths: Vec<String>,
}

impl Group {
    /// The base name the group is keyed by.
    pub open spec fn key(self) -> Seq<char> {
        self.name@
    }

    /// The member paths, in traversal order.
    pub open spec fn members(self) -> Seq<Seq<char>> {
        self.paths.deep_view()
    }
}

/// The table of duplicate groups.
pub struct GroupTable {
    pub groups: Vec<Group>,
}

impl GroupTable {
    /// Some group is keyed by `name`.
    pub open spec fn contains_key(self, name: Seq<char>) -> bool {
        exists|i: int| 0 <= i < self.groups@.len() && (#[trigger] self.groups@[i]).key() == name
    }

    /// The position of the group keyed by `name`.
    pub open spec fn index_of(self, name: Seq<char>) -> int {
        choose|i: int| 0 <= i < self.groups@.len() && (#[trigger] self.groups@[i]).key() == name
    }

    /// The member paths of the group keyed by `name`.
    pub open spec fn members_of(self, name: Seq<char>) -> Seq<Seq<char>> {
        self.groups@[self.index_of(name)].members()
    }

    /// The table read as a map from base name to member paths.
    pub open spec fn as_map(self) -> Map<Seq<char>, Seq<Seq<char>>> {
        Map::new(
            |name: Seq<char>| self.contains_key(name),
            |name: Seq<char>| self.members_of(name),
        )
    }
}

/// The table holds exactly the base names shared by two or more surviving
/// paths, each keyed once, each group listing those paths in traversal order.
pub open spec fn table_matches(
    t: GroupTable,
    paths: Seq<Seq<char>>,
    ignores: Seq<Seq<char>>,
) -> bool {
    &&& forall|i: int|
        0 <= i < t.groups@.len() ==> (#[trigger] t.groups@[i]).members() == group_for(
            paths,
            ignores,
            t.groups@[i].key(),
        )
    &&& forall|i: int| 0 <= i < t.groups@.len() ==> (#[trigger] t.groups@[i]).members().len() >= 2
    &&& forall|name: Seq<char>|
        group_for(paths, ignores, name).len() >= 2 ==> t.contains_key(name)
    &&& forall|i: int, j: int|
        0 <= i < j < t.groups@.len() ==> (#[trigger] t.groups@[i]).key() != (
        #[trigger] t.groups@[j]).key()
}

/// Some group in `groups` is keyed by `name`.
pub open spec fn groups_contain(groups: Seq<Group>, name: Seq<char>) -> bool {
    exists|i: int| 0 <= i < groups.len() && (#[trigger] groups[i]).key() == name
}

/// The state of the table while it is being built: every group, singletons
/// included, for the paths seen so far.
spec fn builds_groups(groups: Seq<Group>, paths: Seq<Seq<char>>, ignores: Seq<Seq<char>>) -> bool {
    &&& forall|i: int|
        0 <= i < groups.len() ==> (#[trigger] groups[i]).members() == group_for(
            paths,
            ignores,
            groups[i].key(),
        )
    &&& forall|i: int| 0 <= i < groups.len() ==> (#[trigger] groups[i]).members().len() >= 1
    &&& forall|name: Seq<char>|
        group_for(paths, ignores, name).len() >= 1 ==> groups_contain(groups, name)
    &&& forall|i: int, j: int|
        0 <= i < j < groups.len() ==> (#[trigger] groups[i]).key() != (#[trigger] groups[j]).key()
}

/// No paths, no groups.
pub proof fn lemma_group_for_empty(ignores: Seq<Seq<char>>, name: Seq<char>)
    ensures
        group_for(Seq::<Seq<char>>::empty(), ignores, name) == Seq::<Seq<char>>::empty(),
{
    reveal(Seq::filter);
}

/// Appending one path extends exactly the group of its base name, and only
/// when the path survives the filter.
pub proof fn lemma_group_for_push(paths: Seq<Seq<char>>, ignores: Seq<Seq<char>>, p: Seq<char>)
    ensures
        forall|name: Seq<char>|
            #![trigger group_for(paths.push(p), ignores, name)]
            group_for(paths.push(p), ignores, name) == (if is_grouped_under(p, ignores, name) {
                group_for(paths, ignores, name).push(p)
            } else {
                group_for(paths, ignores, name)
            }),
{
    assert forall|name: Seq<char>|
        group_for(paths.push(p), ignores, name) == (if is_grouped_under(p, ignores, name) {
            group_for(paths, ignores, name).push(p)
        } else {
            group_for(paths, ignores, name)
        }) by {
        reveal(Seq::filter);
        assert(paths.push(p).drop_last() =~= paths);
        assert(paths.push(p).last() == p);
    }
}

/// Every member of a group survives the filter and bears the group's name.
pub proof fn lemma_group_member_grouped(
    paths: Seq<Seq<char>>,
    ignores: Seq<Seq<char>>,
    name: Seq<char>,
    a: int,
)
    requires
        0 <= a < group_for(paths, ignores, name).len(),
    ensures
        is_grouped_under(group_for(paths, ignores, name)[a], ignores, name),
    decreases paths.len(),
{
    if paths.len() == 0 {
        lemma_group_for_empty(ignores, name);
    } else {
        let rest = paths.drop_last();
        assert(rest.push(paths.last()) =~= paths);
        lemma_group_for_push(rest, ignores, paths.last());
        if is_grouped_under(paths.last(), ignores, name) {
            if a < group_for(rest, ignores, name).len() {
                lemma_group_member_grouped(rest, ignores, name, a);
            }
        } else {
            lemma_group_member_grouped(rest, ignores, name, a);
        }
    }
}

/// A surviving path stands in the group of its base name.
pub proof fn lemma_group_holds_member(
    paths: Seq<Seq<char>>,
    ignores: Seq<Seq<char>>,
    name: Seq<char>,
    i: int,
)
    requires
        0 <= i < paths.len(),
        is_grouped_under(paths[i], ignores, name),
    ensures
        exists|a: int|
            0 <= a < group_for(paths, ignores, name).len() && group_for(paths, ignores, name)[a]
                == paths[i],
    decreases paths.len(),
{
    let g = group_for(paths, ignores, name);
    let rest = paths.drop_last();
    assert(rest.push(paths.last()) =~= paths);
    lemma_group_for_push(rest, ignores, paths.last());
    if i == paths.len() - 1 {
        assert(g[g.len() - 1] == paths[i]);
    } else {
        assert(rest[i] == paths[i]);
        lemma_group_holds_member(rest, ignores, name, i);
        let a = choose|a: int|
            0 <= a < group_for(rest, ignores, name).len() && group_for(rest, ignores, name)[a]
                == rest[i];
        assert(g[a] == paths[i]);
    }
}

/// A group with a member has a surviving source path.
pub proof fn lemma_group_source(paths: Seq<Seq<char>>, ignores: Seq<Seq<char>>, name: Seq<char>)
    requires
        group_for(paths, ignores, name).len() >= 1,
    ensures
        exists|i: int|
            0 <= i < paths.len() && is_grouped_under(#[trigger] paths[i], ignores, name),
    decreases paths.len(),
{
    if paths.len() == 0 {
        lemma_group_for_empty(ignores, name);
    } else {
        let rest = paths.drop_last();
        assert(rest.push(paths.last()) =~= paths);
        lemma_group_for_push(rest, ignores, paths.last());
        if is_grouped_under(paths.last(), ignores, name) {
            assert(is_grouped_under(paths[paths.len() - 1], ignores, name));
        } else {
            lemma_group_source(rest, ignores, name);
            let i = choose|i: int|
                0 <= i < rest.len() && is_grouped_under(#[trigger] rest[i], ignores, name);
            assert(is_grouped_under(paths[i], ignores, name));
        }
    }
}

/// A group of two or more has two distinct surviving source paths.
pub proof fn lemma_group_two_sources(
    paths: Seq<Seq<char>>,
    ignores: Seq<Seq<char>>,
    name: Seq<char>,
)
    requires
        group_for(paths, ignores, name).len() >= 2,
    ensures
        exists|i: int, j: int|
            #![trigger paths[i], paths[j]]
            0 <= i < j < paths.len() && is_grouped_under(paths[i], ignores, name)
                && is_grouped_under(paths[j], ignores, name),
    decreases paths.len(),
{
    if paths.len() == 0 {
        lemma_group_for_empty(ignores, name);
    } else {
        let rest = paths.drop_last();
        assert(rest.push(paths.last()) =~= paths);
        lemma_group_for_push(rest, ignores, paths.last());
        if is_grouped_under(paths.last(), ignores, name) {
            assert(group_for(rest, ignores, name).len() >= 1);
            lemma_group_source(rest, ignores, name);
            let i = choose|i: int|
                0 <= i < rest.len() && is_grouped_under(#[trigger] rest[i], ignores, name);
            let j = paths.len() - 1;
            assert(paths[i] == rest[i]);
            assert(is_grouped_under(paths[i], ignores, name) && is_grouped_under(
                paths[j],
                ignores,
                name,
            ));
        } else {
            lemma_group_two_sources(rest, ignores, name);
            let (i, j) = choose|i: int, j: int|
                #![trigger rest[i], rest[j]]
                0 <= i < j < rest.len() && is_grouped_under(rest[i], ignores, name)
                    && is_grouped_under(rest[j], ignores, name);
            assert(paths[i] == rest[i] && paths[j] == rest[j]);
            assert(is_grouped_under(paths[i], ignores, name) && is_grouped_under(
                paths[j],
                ignores,
                name,
            ));
        }
    }
}

/// Two surviving paths with one base name stand in its group in traversal
/// order.
pub proof fn lemma_group_keeps_order(
    paths: Seq<Seq<char>>,
    ignores: Seq<Seq<char>>,
    name: Seq<char>,
    i: int,
    j: int,
)
    requires
        0 <= i < j < paths.len(),
        is_grouped_under(paths[i], ignores, name),
        is_grouped_under(paths[j], ignores, name),
    ensures
        exists|a: int, b: int|
            #![trigger group_for(paths, ignores, name)[a], group_for(paths, ignores, name)[b]]
            0 <= a < b < group_for(paths, ignores, name).len() && group_for(paths, ignores, name)[a]
                == paths[i] && group_for(paths, ignores, name)[b] == paths[j],
    decreases paths.len(),
{
    let g = group_for(paths, ignores, name);
    let rest = paths.drop_last();
    assert(rest.push(paths.last()) =~= paths);
    lemma_group_for_push(rest, ignores, paths.last());
    let gr = group_for(rest, ignores, name);
    if j == paths.len() - 1 {
        assert(rest[i] == paths[i]);
        lemma_group_holds_member(rest, ignores, name, i);
        let a = choose|a: int| 0 <= a < gr.len() && gr[a] == rest[i];
        let b = gr.len() as int;
        assert(g[a] == paths[i] && g[b] == paths[j]);
    } else {
        assert(rest[i] == paths[i] && rest[j] == paths[j]);
        lemma_group_keeps_order(rest, ignores, name, i, j);
        let (a, b) = choose|a: int, b: int|
            #![trigger gr[a], gr[b]]
            0 <= a < b < gr.len() && gr[a] == rest[i] && gr[b] == rest[j];
        assert(g[a] == paths[i] && g[b] == paths[j]);
    }
}

/// Buckets the given paths by base name, drops every path that matches an
/// ignore pattern or whose base name holds no `.`, and keeps the buckets of
/// two or more paths.
pub fn find_duplicate_files(paths: &Vec<String>, ignored_file_names: &Vec<String>) -> (r:
    GroupTable)
    ensures
        table_matches(r, paths.deep_view(), ignored_file_names.deep_view()),
{
    let ghost all = paths.deep_view();
    let ghost ign = ignored_file_names.deep_view();
    let mut groups: Vec<Group> = Vec::new();
    let n = paths.len();
    let mut k: usize = 0;
    while k < n
        invariant
            n == paths@.len(),
            k <= n,
            all == paths.deep_view(),
            ign == ignored_file_names.deep_view(),
            builds_groups(groups@, all.subrange(0, k as int), ign),
        decreases n - k,
    {
        let p: &String = &paths[k];
        let ghost prefix = all.subrange(0, k as int);
        let ghost next = all.subrange(0, k as int + 1);
        proof {
            assert(all[k as int] == paths@[k as int]@);
            assert(next =~= prefix.push(p@));
            lemma_group_for_push(prefix, ign, p@);
        }
        if !is_ignored_path(p.as_str(), ignored_file_names) {
            match parse_file_name(p.as_str()) {
                Some(nm) => {
                    let glen = groups.len();
                    let mut idx: usize = glen;
                    let mut t: usize = 0;
                    while t < glen
                        invariant
                            glen == groups@.len(),
                            t <= glen,
                            idx == glen || (idx < glen && groups@[idx as int].key() == nm@),
                            idx == glen ==> forall|u: int|
                                0 <= u < t ==> (#[trigger] groups@[u]).key() != nm@,
                        decreases glen - t,
                    {
                        if idx == glen && groups[t].name.eq(&nm) {
                            idx = t;
                        }
                        t = t + 1;
                    }
                    assert(is_grouped_under(p@, ign, nm@));
                    if idx < glen {
                        let ghost before = groups@;
                        let mut g = groups.remove(idx);
                        let ghost old_members = g.members();
                        g.paths.push(p.clone());
                        proof {
                            assert(g.members() =~= old_members.push(p@));
                        }
                        groups.insert(idx, g);
                        proof {
                            assert(groups@ =~= before.update(idx as int, g));
                            assert forall|name: Seq<char>|
                                group_for(next, ign, name).len() >= 1 implies groups_contain(
                                groups@,
                                name,
                            ) by {
                                if name == nm@ {
                                    assert(groups@[idx as int].key() == name);
                                } else {
                                    assert(!is_grouped_under(p@, ign, name));
                                    assert(group_for(next, ign, name) == group_for(
                                        prefix,
                                        ign,
                                        name,
                                    ));
                                    assert(group_for(prefix, ign, name).len() >= 1);
                                    assert(groups_contain(before, name));
                                    let w = choose|i: int|
                                        0 <= i < before.len() && (#[trigger] before[i]).key()
                                            == name;
                                    assert(w != idx as int);
                                    assert(groups@[w] == before[w]);
                                    assert(groups@[w].key() == name);
                                }
                            }
                        }
                    } else {
                        let mut fresh: Vec<String> = Vec::new();
                        fresh.push(p.clone());
                        let g = Group { name: nm, paths: fresh };
                        proof {
                            assert(g.members() =~= seq![p@]);
                            assert(group_for(prefix, ign, nm@).len() == 0) by {
                                if group_for(prefix, ign, nm@).len() >= 1 {
                                    assert(groups_contain(groups@, nm@));
                                }
                            }
                            assert(group_for(next, ign, nm@) =~= seq![p@]);
                        }
                        let ghost before = groups@;
                        groups.push(g);
                        proof {
                            assert forall|name: Seq<char>|
                                group_for(next, ign, name).len() >= 1 implies groups_contain(
                                groups@,
                                name,
                            ) by {
                                if name == nm@ {
                                    assert(groups@[before.len() as int].key() == name);
                                } else {
                                    assert(!is_grouped_under(p@, ign, name));
                                    assert(group_for(next, ign, name) == group_for(
                                        prefix,
                                        ign,
                                        name,
                                    ));
                                    if group_for(prefix, ign, name).len() >= 1 {
                                        assert(groups_contain(before, name));
                                        let w = choose|i: int|
                                            0 <= i < before.len() && (#[trigger] before[i]).key()
                                                == name;
                                        assert(groups@[w] == before[w]);
                                        assert(groups@[w].key() == name);
                                    }
                                }
                            }
                        }
                    }
                },
                None => {
                    proof {
                        assert(spec_parse_file_name(p@) is None);
                        assert forall|name: Seq<char>|
                            group_for(next, ign, name) == group_for(prefix, ign, name) by {
                            assert(!is_grouped_under(p@, ign, name));
                        }
                    }
                },
            }
        } else {
            proof {
                assert forall|name: Seq<char>|
                    group_for(next, ign, name) == group_for(prefix, ign, name) by {
                    assert(!is_grouped_under(p@, ign, name));
                }
            }
        }
        k = k + 1;
    }
    proof {
        assert(all.subrange(0, n as int) =~= all);
    }
    let mut out: Vec<Group> = Vec::new();
    while groups.len() > 0
        invariant
            all == paths.deep_view(),
            ign == ignored_file_names.deep_view(),
            forall|i: int|
                0 <= i < groups@.len() ==> (#[trigger] groups@[i]).members() == group_for(
                    all,
                    ign,
                    groups@[i].key(),
                ),
            forall|i: int|
                0 <= i < out@.len() ==> (#[trigger] out@[i]).members() == group_for(
                    all,
                    ign,
                    out@[i].key(),
                ),
            forall|i: int| 0 <= i < out@.len() ==> (#[trigger] out@[i]).members().len() >= 2,
            forall|name: Seq<char>|
                group_for(all, ign, name).len() >= 2 ==> groups_contain(groups@, name)
                    || groups_contain(out@, name),
            forall|i: int, j: int|
                0 <= i < j < out@.len() ==> (#[trigger] out@[i]).key() != (#[trigger] out@[j]).key(),
            forall|i: int, j: int|
                0 <= i < groups@.len() && 0 <= j < out@.len() ==> (#[trigger] groups@[i]).key() != (
                #[trigger] out@[j]).key(),
            forall|i: int, j: int|
                0 <= i < j < groups@.len() ==> (#[trigger] groups@[i]).key() != (
                #[trigger] groups@[j]).key(),
        decreases groups.len(),
    {
        let ghost before = groups@;
        let g = groups.pop().unwrap();
        proof {
            assert(g == before.last());
            assert(groups@ =~= before.drop_last());
        }
        let keep = g.paths.len() >= 2;
        if keep {
            proof {
                assert(g.members().len() >= 2);
            }
            let ghost out_before = out@;
            out.push(g);
            proof {
                assert forall|name: Seq<char>|
                    group_for(all, ign, name).len() >= 2 implies groups_contain(groups@, name)
                    || groups_contain(out@, name) by {
                    if groups_contain(before, name) {
                        let w = choose|i: int|
                            0 <= i < before.len() && (#[trigger] before[i]).key() == name;
                        if w < before.len() - 1 {
                            assert(groups@[w].key() == name);
                        } else {
                            assert(out@[out_before.len() as int].key() == name);
                        }
                    } else {
                        let w = choose|i: int|
                            0 <= i < out_before.len() && (#[trigger] out_before[i]).key() == name;
                        assert(out@[w].key() == name);
                    }
                }
            }
        } else {
            proof {
                assert(g.members().len() < 2);
                assert forall|name: Seq<char>|
                    group_for(all, ign, name).len() >= 2 implies groups_contain(groups@, name)
                    || groups_contain(out@, name) by {
                    if groups_contain(before, name) {
                        let w = choose|i: int|
                            0 <= i < before.len() && (#[trigger] before[i]).key() == name;
                        if w < before.len() - 1 {
                            assert(groups@[w].key() == name);
                        } else {
                            assert(name == g.key());
                            assert(group_for(all, ign, name) == g.members());
                        }
                    }
                }
            }
        }
    }
    let r = GroupTable { groups: out };
    proof {
        assert forall|name: Seq<char>|
            group_for(all, ign, name).len() >= 2 implies r.contains_key(name) by {
            assert(groups_contain(out@, name));
            let w = choose|i: int| 0 <= i < out@.len() && (#[trigger] out@[i]).key() == name;
            assert(r.groups@[w].key() == name);
        }
    }
    r
}

} // verus!
