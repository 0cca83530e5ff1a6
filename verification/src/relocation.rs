//! Profiles with the paths of the workspace in the place of their own.

use crate::analysis::HotspotFunction;
use crate::analysis::ProfileData;
use crate::costs::cost_at;
use crate::costs::in_order;
use crate::costs::ordered_lines;
use crate::costs::FileCosts;
use crate::costs::LineCost;
use crate::paths::candidates;
use crate::paths::lemma_searched_in_order;
use crate::paths::resolution;
use crate::paths::resolved;
use crate::paths::text_of;
use crate::paths::PathResolver;
use crate::paths::ResolverModel;
use crate::text::same_text;
use std::collections::BTreeMap;
use vstd::prelude::*;
use vstd::std_specs::iter::IteratorSpec;

verus! {

/// The resolvers resolve every path alike.
pub open spec fn resolves_alike(a: ResolverModel, b: ResolverModel, existing: Seq<Seq<char>>) -> bool {
    &&& a.rules == b.rules
    &&& a.root == b.root
    &&& a.trim_prefix == b.trim_prefix
    &&& a.source_root == b.source_root
    &&& a.go_files == b.go_files
    &&& forall|path: Seq<char>| #[trigger]
        resolution(a, path, existing) == resolution(b, path, existing)
}

/// The flat costs of a line, summed over the files that were found at `key`.
pub open spec fn flat_sum(
    costs: Map<Seq<char>, Map<u64, LineCost>>,
    names: Seq<Seq<char>>,
    key: Seq<char>,
    line: u64,
    m: ResolverModel,
    existing: Seq<Seq<char>>,
) -> int
    decreases names.len(),
{
    if names.len() == 0 {
        0
    } else {
        let sum = flat_sum(costs, names.drop_last(), key, line, m, existing);
        if resolution(m, names.last(), existing) == Some(key) {
            sum + cost_at(costs[names.last()], line).flat
        } else {
            sum
        }
    }
}

/// The cumulative costs of a line, summed over the files that were found at `key`.
pub open spec fn cumulative_sum(
    costs: Map<Seq<char>, Map<u64, LineCost>>,
    names: Seq<Seq<char>>,
    key: Seq<char>,
    line: u64,
    m: ResolverModel,
    existing: Seq<Seq<char>>,
) -> int
    decreases names.len(),
{
    if names.len() == 0 {
        0
    } else {
        let sum = cumulative_sum(costs, names.drop_last(), key, line, m, existing);
        if resolution(m, names.last(), existing) == Some(key) {
            sum + cost_at(costs[names.last()], line).cumulative
        } else {
            sum
        }
    }
}

/// One of the files was found at `key`.
pub open spec fn found_at(
    names: Seq<Seq<char>>,
    key: Seq<char>,
    m: ResolverModel,
    existing: Seq<Seq<char>>,
) -> bool {
    exists|i: int|
        0 <= i < names.len() && resolution(m, #[trigger] names[i], existing) == Some(key)
}

/// One of the files that were found at `key` has costs at the line.
pub open spec fn line_found_at(
    costs: Map<Seq<char>, Map<u64, LineCost>>,
    names: Seq<Seq<char>>,
    key: Seq<char>,
    line: u64,
    m: ResolverModel,
    existing: Seq<Seq<char>>,
) -> bool {
    exists|i: int|
        0 <= i < names.len() && resolution(m, #[trigger] names[i], existing) == Some(key)
            && costs[names[i]].contains_key(line)
}

/// The lines at `key` are those of the files that were found there, with the sums of
/// their costs.
pub open spec fn lines_merged(
    lines: Map<u64, LineCost>,
    costs: Map<Seq<char>, Map<u64, LineCost>>,
    names: Seq<Seq<char>>,
    key: Seq<char>,
    m: ResolverModel,
    existing: Seq<Seq<char>>,
) -> bool {
    forall|line: u64| #[trigger]
        lines.contains_key(line) == line_found_at(costs, names, key, line, m, existing) && (
        lines.contains_key(line) ==> lines[line].flat == flat_sum(
            costs,
            names,
            key,
            line,
            m,
            existing,
        ) && lines[line].cumulative == cumulative_sum(costs, names, key, line, m, existing))
}

/// The costs of the files `names`, by the paths at which they were found in the
/// workspace. Where several files were found at one path, their costs are summed line by
/// line.
pub open spec fn costs_relocated(
    after: Map<Seq<char>, Map<u64, LineCost>>,
    before: Map<Seq<char>, Map<u64, LineCost>>,
    names: Seq<Seq<char>>,
    m: ResolverModel,
    existing: Seq<Seq<char>>,
) -> bool {
    forall|key: Seq<char>| #[trigger]
        after.contains_key(key) == found_at(names, key, m, existing) && (after.contains_key(key)
            ==> lines_merged(after[key], before, names, key, m, existing))
}

/// Every sum of costs fits its type.
pub open spec fn relocation_fits(
    costs: Map<Seq<char>, Map<u64, LineCost>>,
    names: Seq<Seq<char>>,
    m: ResolverModel,
    existing: Seq<Seq<char>>,
) -> bool {
    forall|key: Seq<char>, line: u64|
        i64::MIN <= #[trigger] flat_sum(costs, names, key, line, m, existing) <= i64::MAX
            && i64::MIN <= cumulative_sum(costs, names, key, line, m, existing) <= i64::MAX
}

/// The hotspot lies at its path in the workspace, where it was found there.
pub open spec fn hotspot_relocated(
    after: HotspotFunction,
    before: HotspotFunction,
    m: ResolverModel,
    existing: Seq<Seq<char>>,
) -> bool {
    &&& after.rank == before.rank
    &&& after.name@ == before.name@
    &&& after.filename@ == match resolution(m, before.filename@, existing) {
        Some(key) => key,
        None => before.filename@,
    }
    &&& after.start_line == before.start_line
    &&& after.flat == before.flat
    &&& after.cumulative == before.cumulative
}

proof fn lemma_resolves_alike(
    a: ResolverModel,
    b: ResolverModel,
    path: Seq<char>,
    existing: Seq<Seq<char>>,
)
    requires
        resolves_alike(a, b, existing),
    ensures
        resolves_alike(a, resolved(b, path, existing), existing),
{
    let c = resolved(b, path, existing);
    assert forall|other: Seq<char>| #[trigger]
        resolution(a, other, existing) == resolution(c, other, existing) by {
        assert(resolution(a, other, existing) == resolution(b, other, existing));
        assert(candidates(c, other) == candidates(b, other));
    }
}

/// A line that none of the files found at `key` has adds up to nothing.
proof fn lemma_sum_of_nothing(
    costs: Map<Seq<char>, Map<u64, LineCost>>,
    names: Seq<Seq<char>>,
    key: Seq<char>,
    line: u64,
    m: ResolverModel,
    existing: Seq<Seq<char>>,
)
    requires
        !line_found_at(costs, names, key, line, m, existing),
    ensures
        flat_sum(costs, names, key, line, m, existing) == 0,
        cumulative_sum(costs, names, key, line, m, existing) == 0,
    decreases names.len(),
{
    if names.len() > 0 {
        let front = names.drop_last();
        let last = names.len() - 1;
        assert(names[last] == names.last());
        assert(!line_found_at(costs, front, key, line, m, existing)) by {
            if line_found_at(costs, front, key, line, m, existing) {
                let i = choose|i: int|
                    0 <= i < front.len() && resolution(m, #[trigger] front[i], existing) == Some(
                        key,
                    ) && costs[front[i]].contains_key(line);
                assert(names[i] == front[i]);
            }
        }
        lemma_sum_of_nothing(costs, front, key, line, m, existing);
    }
}

/// What is summed up of a line so far; nothing where there was nothing yet.
spec fn sums_at(sums: Map<u64, (i128, i128)>, line: u64) -> (int, int) {
    if sums.contains_key(line) {
        (sums[line].0 as int, sums[line].1 as int)
    } else {
        (0, 0)
    }
}

/// Neither sum is larger than `n` costs can make it.
spec fn sums_bounded(sums: Map<u64, (i128, i128)>, n: int) -> bool {
    forall|line: u64| #[trigger]
        sums.contains_key(line) ==> -n * 0x8000_0000_0000_0000 <= sums[line].0 <= n
            * 0x8000_0000_0000_0000 && -n * 0x8000_0000_0000_0000 <= sums[line].1 <= n
            * 0x8000_0000_0000_0000
}

/// Adds the costs of a file's lines to the sums.
fn add_lines(sums: &mut BTreeMap<u64, (i128, i128)>, lines: &BTreeMap<u64, LineCost>, n: usize)
    requires
        n < usize::MAX,
        sums_bounded(old(sums)@, n as int),
    ensures
        forall|line: u64| #[trigger]
            final(sums)@.contains_key(line) <==> old(sums)@.contains_key(line)
                || lines@.contains_key(line),
        forall|line: u64| #[trigger]
            sums_at(final(sums)@, line) == (
                sums_at(old(sums)@, line).0 + cost_at(lines@, line).flat,
                sums_at(old(sums)@, line).1 + cost_at(lines@, line).cumulative,
            ),
        sums_bounded(final(sums)@, n + 1),
{
    let ghost before = sums@;
    let list: Vec<(u64, LineCost)> = ordered_lines(lines);
    let mut i: usize = 0;
    while i < list.len()
        invariant
            i <= list@.len(),
            n < usize::MAX,
            in_order(list@, lines@),
            sums_bounded(before, n as int),
            forall|line: u64| #[trigger]
                sums@.contains_key(line) <==> before.contains_key(line) || exists|k: int|
                    0 <= k < i && (#[trigger] list@[k]).0 == line,
            forall|k: int|
                0 <= k < i ==> sums_at(sums@, (#[trigger] list@[k]).0) == (
                    sums_at(before, list@[k].0).0 + list@[k].1.flat,
                    sums_at(before, list@[k].0).1 + list@[k].1.cumulative,
                ),
            forall|line: u64|
                (forall|k: int| 0 <= k < i ==> (#[trigger] list@[k]).0 != line)
                    ==> #[trigger] sums_at(sums@, line) == sums_at(before, line),
        decreases list.len() - i,
    {
        let line: u64 = list[i].0;
        let cost: LineCost = list[i].1;
        let ghost so_far = sums@;
        proof {
            assert(list@[i as int].0 == line);
            assert(sums_at(so_far, line) == sums_at(before, line));
            assert(before.contains_key(line) || sums_at(before, line) == (0int, 0int));
        }
        let sum: (i128, i128) = match sums.get(&line) {
            Some(sum) => *sum,
            None => (0, 0),
        };
        assert(sum.0 == sums_at(before, line).0 && sum.1 == sums_at(before, line).1);
        assert(n <= 0xffff_ffff_ffff_fffe) by {
            let wide = n as u64;
            assert(n == wide);
        }
        sums.insert(line, (sum.0 + cost.flat as i128, sum.1 + cost.cumulative as i128));
        i += 1;
        proof {
            assert forall|other: u64| #[trigger]
                sums@.contains_key(other) <==> before.contains_key(other) || exists|k: int|
                    0 <= k < i && (#[trigger] list@[k]).0 == other by {
                if so_far.contains_key(other) && !before.contains_key(other) {
                    let k = choose|k: int| 0 <= k < i - 1 && (#[trigger] list@[k]).0 == other;
                    assert(list@[k].0 == other);
                }
                if other == line {
                    assert(list@[i - 1].0 == other);
                }
            }
            assert forall|k: int| 0 <= k < i implies sums_at(sums@, (#[trigger] list@[k]).0) == (
                sums_at(before, list@[k].0).0 + list@[k].1.flat,
                sums_at(before, list@[k].0).1 + list@[k].1.cumulative,
            ) by {
                if k < i - 1 {
                    assert(list@[k].0 < list@[i - 1].0);
                    assert(sums_at(sums@, list@[k].0) == sums_at(so_far, list@[k].0));
                }
            }
            assert forall|other: u64|
                (forall|k: int| 0 <= k < i ==> (#[trigger] list@[k]).0 != other) implies #[trigger] sums_at(
                sums@,
                other,
            ) == sums_at(before, other) by {
                assert(list@[i - 1].0 != other);
                assert(sums_at(sums@, other) == sums_at(so_far, other));
            }
        }
    }
    proof {
        assert forall|line: u64| #[trigger]
            sums_at(sums@, line) == (
                sums_at(before, line).0 + cost_at(lines@, line).flat,
                sums_at(before, line).1 + cost_at(lines@, line).cumulative,
            ) by {
            if lines@.contains_key(line) {
                let k = choose|k: int| 0 <= k < list@.len() && (#[trigger] list@[k]).0 == line;
                assert(list@[k].0 == line);
            }
        }
        assert forall|line: u64| #[trigger] sums@.contains_key(line) implies -(n + 1)
            * 0x8000_0000_0000_0000 <= sums@[line].0 <= (n + 1) * 0x8000_0000_0000_0000 && -(n + 1)
            * 0x8000_0000_0000_0000 <= sums@[line].1 <= (n + 1) * 0x8000_0000_0000_0000 by {
            let sum = sums_at(sums@, line);
            assert(sum.0 == sums_at(before, line).0 + cost_at(lines@, line).flat);
            assert(before.contains_key(line) || sums_at(before, line) == (0int, 0int));
        }
    }
}

/// The sums as costs; `None` where one does not fit.
fn narrowed(sums: &BTreeMap<u64, (i128, i128)>) -> (r: Option<BTreeMap<u64, LineCost>>)
    ensures
        match r {
            Some(lines) => forall|line: u64| #[trigger]
                lines@.contains_key(line) == sums@.contains_key(line) && (lines@.contains_key(line)
                    ==> lines@[line].flat == sums@[line].0 && lines@[line].cumulative
                    == sums@[line].1),
            None => exists|line: u64| #[trigger]
                sums@.contains_key(line) && !(i64::MIN <= sums@[line].0 <= i64::MAX && i64::MIN
                    <= sums@[line].1 <= i64::MAX),
        },
{
    let mut r: BTreeMap<u64, LineCost> = BTreeMap::new();
    let iter = sums.iter();
    let ghost entries = iter.remaining();
    assert(forall|i: int|
        0 <= i < entries.len() ==> sums@.contains_key(*(#[trigger] entries[i]).0)
            && sums@[*entries[i].0] == *entries[i].1);
    for entry in it: iter
        invariant
            it.seq() == entries,
            forall|i: int|
                0 <= i < entries.len() ==> sums@.contains_key(*(#[trigger] entries[i]).0)
                    && sums@[*entries[i].0] == *entries[i].1,
            forall|line: u64| #[trigger]
                r@.contains_key(line) ==> sums@.contains_key(line) && r@[line].flat == sums@[line].0
                    && r@[line].cumulative == sums@[line].1,
            forall|i: int| 0 <= i < it.index() ==> r@.contains_key(*(#[trigger] entries[i]).0),
    {
        let line: u64 = *entry.0;
        let flat: i128 = entry.1.0;
        let cumulative: i128 = entry.1.1;
        assert(entries[it.index()].0 == entry.0);
        if flat < i64::MIN as i128 || flat > i64::MAX as i128 || cumulative < i64::MIN as i128
            || cumulative > i64::MAX as i128 {
            assert(sums@.contains_key(line));
            return None;
        }
        r.insert(line, LineCost { flat: flat as i64, cumulative: cumulative as i64 });
    }
    proof {
        assert forall|line: u64| sums@.contains_key(line) implies #[trigger] r@.contains_key(
            line,
        ) by {
            assert(entries.contains((&line, &sums@[line])));
            let i = choose|i: int| 0 <= i < entries.len() && entries[i] == (&line, &sums@[line]);
            assert(r@.contains_key(*entries[i].0));
        }
    }
    Some(r)
}

/// The costs of the files that were found at `key`, summed line by line; `None` where a
/// sum does not fit. `targets` holds where the files were found.
fn merge_lines(
    costs: &FileCosts,
    targets: &Vec<Option<String>>,
    key: &str,
    Ghost(m): Ghost<ResolverModel>,
    Ghost(existing): Ghost<Seq<Seq<char>>>,
) -> (r: Option<BTreeMap<u64, LineCost>>)
    requires
        targets@.len() == costs.names().len(),
        forall|i: int|
            0 <= i < targets@.len() ==> text_of(#[trigger] targets@[i]) == resolution(
                m,
                costs.names()[i],
                existing,
            ),
    ensures
        match r {
            Some(lines) => lines_merged(lines@, costs@, costs.names(), key@, m, existing),
            None => !relocation_fits(costs@, costs.names(), m, existing),
        },
{
    let ghost names = costs.names();
    let mut sums: BTreeMap<u64, (i128, i128)> = BTreeMap::new();
    let mut i: usize = 0;
    while i < targets.len()
        invariant
            i <= targets@.len() == names.len(),
            names == costs.names(),
            forall|i: int|
                0 <= i < targets@.len() ==> text_of(#[trigger] targets@[i]) == resolution(
                    m,
                    names[i],
                    existing,
                ),
            sums_bounded(sums@, i as int),
            forall|line: u64| #[trigger]
                sums@.contains_key(line) == line_found_at(
                    costs@,
                    names.take(i as int),
                    key@,
                    line,
                    m,
                    existing,
                ),
            forall|line: u64| #[trigger]
                sums_at(sums@, line) == (
                    flat_sum(costs@, names.take(i as int), key@, line, m, existing),
                    cumulative_sum(costs@, names.take(i as int), key@, line, m, existing),
                ),
        decreases targets.len() - i,
    {
        let ghost before = sums@;
        let ghost front = names.take(i as int);
        let ghost next = names.take(i + 1);
        assert(next.drop_last() == front);
        assert(next.last() == names[i as int]);
        let found: bool = match &targets[i] {
            Some(target) => same_text(target.as_str(), key),
            None => false,
        };
        assert(found == (resolution(m, names[i as int], existing) == Some(key@)));
        if found {
            let (_, lines) = costs.entry(i);
            add_lines(&mut sums, lines, i);
        }
        proof {
            assert forall|line: u64| #[trigger]
                sums@.contains_key(line) == line_found_at(costs@, next, key@, line, m, existing) by {
                if line_found_at(costs@, front, key@, line, m, existing) {
                    let k = choose|k: int|
                        0 <= k < front.len() && resolution(m, #[trigger] front[k], existing)
                            == Some(key@) && costs@[front[k]].contains_key(line);
                    assert(next[k] == front[k]);
                }
                if line_found_at(costs@, next, key@, line, m, existing) {
                    let k = choose|k: int|
                        0 <= k < next.len() && resolution(m, #[trigger] next[k], existing) == Some(
                            key@,
                        ) && costs@[next[k]].contains_key(line);
                    if k < i {
                        assert(front[k] == next[k]);
                    }
                }
                if sums@.contains_key(line) && !before.contains_key(line) {
                    assert(next[i as int] == names[i as int]);
                }
            }
            assert forall|line: u64| #[trigger]
                sums_at(sums@, line) == (
                    flat_sum(costs@, next, key@, line, m, existing),
                    cumulative_sum(costs@, next, key@, line, m, existing),
                ) by {
                assert(sums_at(before, line) == (
                    flat_sum(costs@, front, key@, line, m, existing),
                    cumulative_sum(costs@, front, key@, line, m, existing),
                ));
            }
        }
        i += 1;
    }
    assert(names.take(i as int) == names);
    let r = narrowed(&sums);
    proof {
        assert forall|line: u64| #[trigger] sums@.contains_key(line) implies sums@[line].0
            == flat_sum(costs@, names, key@, line, m, existing) && sums@[line].1 == cumulative_sum(
            costs@,
            names,
            key@,
            line,
            m,
            existing,
        ) by {
            assert(sums_at(sums@, line).0 == sums@[line].0);
        }
        if r is None {
            let line = choose|line: u64| #[trigger]
                sums@.contains_key(line) && !(i64::MIN <= sums@[line].0 <= i64::MAX && i64::MIN
                    <= sums@[line].1 <= i64::MAX);
            assert(sums@[line].0 == flat_sum(costs@, names, key@, line, m, existing));
        }
    }
    r
}

/// Where the files were found.
fn resolve_all(costs: &FileCosts, resolver: &mut PathResolver, existing: &Vec<String>) -> (r: Vec<
    Option<String>,
>)
    ensures
        r@.len() == costs.names().len(),
        forall|i: int|
            0 <= i < r@.len() ==> text_of(#[trigger] r@[i]) == resolution(
                old(resolver)@,
                costs.names()[i],
                existing.deep_view(),
            ),
        resolves_alike(old(resolver)@, final(resolver)@, existing.deep_view()),
{
    let ghost m = resolver@;
    let ghost e = existing.deep_view();
    let ghost names = costs.names();
    let count: usize = costs.len();
    let mut r: Vec<Option<String>> = Vec::new();
    while r.len() < count
        invariant
            r@.len() <= count == names.len(),
            names == costs.names(),
            e == existing.deep_view(),
            resolves_alike(m, resolver@, e),
            forall|i: int|
                0 <= i < r@.len() ==> text_of(#[trigger] r@[i]) == resolution(m, names[i], e),
        decreases count - r.len(),
    {
        let (name, _) = costs.entry(r.len());
        proof {
            assert(resolution(m, name@, e) == resolution(resolver@, name@, e));
            lemma_resolves_alike(m, resolver@, name@, e);
        }
        r.push(resolver.resolve(name, existing));
    }
    r
}

/// The costs by the paths of the files in the workspace. What cannot be found there is
/// dropped; `None` where a sum does not fit.
fn relocate_costs(costs: &FileCosts, resolver: &mut PathResolver, existing: &Vec<String>) -> (r:
    Option<FileCosts>)
    ensures
        match r {
            Some(after) => relocation_fits(
                costs@,
                costs.names(),
                old(resolver)@,
                existing.deep_view(),
            ) && costs_relocated(
                after@,
                costs@,
                costs.names(),
                old(resolver)@,
                existing.deep_view(),
            ),
            None => !relocation_fits(
                costs@,
                costs.names(),
                old(resolver)@,
                existing.deep_view(),
            ),
        },
        resolves_alike(old(resolver)@, final(resolver)@, existing.deep_view()),
{
    let ghost m = resolver@;
    let ghost e = existing.deep_view();
    let ghost names = costs.names();
    let targets: Vec<Option<String>> = resolve_all(costs, resolver, existing);
    let mut r: FileCosts = FileCosts::new();
    let mut i: usize = 0;
    while i < targets.len()
        invariant
            i <= targets@.len() == names.len(),
            names == costs.names(),
            m == old(resolver)@,
            resolves_alike(m, resolver@, e),
            e == existing.deep_view(),
            forall|i: int|
                0 <= i < targets@.len() ==> text_of(#[trigger] targets@[i]) == resolution(
                    m,
                    names[i],
                    e,
                ),
            forall|k: int|
                0 <= k < i ==> (resolution(m, #[trigger] names[k], e) matches Some(key)
                    ==> r@.contains_key(key)),
            forall|key: Seq<char>| #[trigger]
                r@.contains_key(key) ==> found_at(names, key, m, e) && lines_merged(
                    r@[key],
                    costs@,
                    names,
                    key,
                    m,
                    e,
                ),
        decreases targets.len() - i,
    {
        match &targets[i] {
            Some(key) => {
                assert(resolution(m, names[i as int], e) == Some(key@));
                if !r.contains_key(key.as_str()) {
                    match merge_lines(costs, &targets, key.as_str(), Ghost(m), Ghost(e)) {
                        Some(lines) => {
                            r.insert(key.as_str().to_string(), lines);
                        },
                        None => {
                            return None;
                        },
                    }
                }
            },
            None => {},
        }
        i += 1;
    }
    proof {
        assert forall|key: Seq<char>| found_at(names, key, m, e) implies #[trigger] r@.contains_key(
            key,
        ) by {
            let k = choose|k: int|
                0 <= k < names.len() && resolution(m, #[trigger] names[k], e) == Some(key);
            assert(resolution(m, names[k], e) == Some(key));
        }
        assert forall|key: Seq<char>, line: u64|
            i64::MIN <= #[trigger] flat_sum(costs@, names, key, line, m, e) <= i64::MAX && i64::MIN
                <= cumulative_sum(costs@, names, key, line, m, e) <= i64::MAX by {
            if line_found_at(costs@, names, key, line, m, e) {
                assert(found_at(names, key, m, e));
                assert(r@.contains_key(key));
                assert(r@[key].contains_key(line));
            } else {
                lemma_sum_of_nothing(costs@, names, key, line, m, e);
            }
        }
    }
    Some(r)
}

/// The hotspots at their paths in the workspace. What cannot be found there stays as it
/// is.
fn relocate_hotspots(
    hotspots: &Vec<HotspotFunction>,
    resolver: &mut PathResolver,
    existing: &Vec<String>,
) -> (r: Vec<HotspotFunction>)
    ensures
        r@.len() == hotspots@.len(),
        forall|i: int|
            0 <= i < r@.len() ==> hotspot_relocated(
                #[trigger] r@[i],
                hotspots@[i],
                old(resolver)@,
                existing.deep_view(),
            ),
        resolves_alike(old(resolver)@, final(resolver)@, existing.deep_view()),
{
    let ghost m = resolver@;
    let ghost e = existing.deep_view();
    let mut r: Vec<HotspotFunction> = Vec::new();
    let mut i: usize = 0;
    while i < hotspots.len()
        invariant
            i <= hotspots@.len(),
            r@.len() == i,
            e == existing.deep_view(),
            resolves_alike(m, resolver@, e),
            forall|k: int|
                0 <= k < i ==> hotspot_relocated(#[trigger] r@[k], hotspots@[k], m, e),
        decreases hotspots.len() - i,
    {
        let hotspot: &HotspotFunction = &hotspots[i];
        let ghost file = hotspot.filename@;
        proof {
            assert(resolution(m, file, e) == resolution(resolver@, file, e));
            lemma_resolves_alike(m, resolver@, file, e);
        }
        let filename: String = match resolver.resolve(hotspot.filename.as_str(), existing) {
            Some(key) => key,
            None => hotspot.filename.as_str().to_string(),
        };
        r.push(
            HotspotFunction {
                rank: hotspot.rank,
                name: hotspot.name.as_str().to_string(),
                filename,
                start_line: hotspot.start_line,
                flat: hotspot.flat,
                cumulative: hotspot.cumulative,
            },
        );
        i += 1;
    }
    r
}

/// Puts workspace-relative paths in the place of the profile's own, so that the files
/// that the editor asks for are found. `existing` holds those of the candidate paths
/// that exist in the workspace. `None` where the costs of files that were found at one
/// path do not fit when summed.
pub fn relocate(data: ProfileData, resolver: &mut PathResolver, existing: &Vec<String>) -> (r:
    Option<ProfileData>)
    ensures
        r is Some == relocation_fits(
            data.line_costs@,
            data.line_costs.names(),
            old(resolver)@,
            existing.deep_view(),
        ),
        r matches Some(after) ==> {
            &&& costs_relocated(
                after.line_costs@,
                data.line_costs@,
                data.line_costs.names(),
                old(resolver)@,
                existing.deep_view(),
            )
            &&& after.hotspots@.len() == data.hotspots@.len()
            &&& forall|i: int|
                0 <= i < after.hotspots@.len() ==> hotspot_relocated(
                    #[trigger] after.hotspots@[i],
                    data.hotspots@[i],
                    old(resolver)@,
                    existing.deep_view(),
                )
            &&& after.profile_type == data.profile_type
            &&& after.sample_type_label == data.sample_type_label
            &&& after.value_unit == data.value_unit
            &&& after.total_value == data.total_value
            &&& after.duration == data.duration
        },
        resolves_alike(old(resolver)@, final(resolver)@, existing.deep_view()),
{
    let ghost m = resolver@;
    let ghost e = existing.deep_view();
    let line_costs: FileCosts = match relocate_costs(&data.line_costs, resolver, existing) {
        Some(line_costs) => line_costs,
        None => {
            return None;
        },
    };
    let ghost after = resolver@;
    let hotspots: Vec<HotspotFunction> = relocate_hotspots(&data.hotspots, resolver, existing);
    proof {
        assert forall|i: int| 0 <= i < hotspots@.len() implies hotspot_relocated(
            #[trigger] hotspots@[i],
            data.hotspots@[i],
            m,
            e,
        ) by {
            let file = data.hotspots@[i].filename@;
            assert(hotspot_relocated(hotspots@[i], data.hotspots@[i], after, e));
            assert(resolution(m, file, e) == resolution(after, file, e));
        }
        assert forall|path: Seq<char>| #[trigger]
            resolution(m, path, e) == resolution(resolver@, path, e) by {
            assert(resolution(m, path, e) == resolution(after, path, e));
        }
    }
    Some(
        ProfileData {
            line_costs,
            hotspots,
            profile_type: data.profile_type,
            sample_type_label: data.sample_type_label,
            value_unit: data.value_unit,
            total_value: data.total_value,
            duration: data.duration,
        },
    )
}

/// After a resolver that starts anew has relocated the costs, they are those of paths
/// that exist in the workspace, or of its Go files.
pub proof fn lemma_relocated_in_workspace(
    after: Map<Seq<char>, Map<u64, LineCost>>,
    before: Map<Seq<char>, Map<u64, LineCost>>,
    names: Seq<Seq<char>>,
    m: ResolverModel,
    existing: Seq<Seq<char>>,
    key: Seq<char>,
)
    requires
        costs_relocated(after, before, names, m, existing),
        m.cache == Map::<Seq<char>, Option<Seq<char>>>::empty(),
        after.contains_key(key),
    ensures
        existing.contains(key) || m.go_files.contains(key),
{
    assert(found_at(names, key, m, existing));
    let i = choose|i: int|
        0 <= i < names.len() && resolution(m, #[trigger] names[i], existing) == Some(key);
    lemma_searched_in_order(m, names[i], existing);
}

/// The sums at a path where no file but `file` was found.
proof fn lemma_sum_of_one(
    costs: Map<Seq<char>, Map<u64, LineCost>>,
    names: Seq<Seq<char>>,
    file: Seq<char>,
    key: Seq<char>,
    line: u64,
    m: ResolverModel,
    existing: Seq<Seq<char>>,
)
    requires
        names.no_duplicates(),
        resolution(m, file, existing) == Some(key),
        forall|i: int|
            0 <= i < names.len() ==> (resolution(m, #[trigger] names[i], existing) == Some(key)
                ==> names[i] == file),
    ensures
        flat_sum(costs, names, key, line, m, existing) == if names.contains(file) {
            cost_at(costs[file], line).flat as int
        } else {
            0
        },
        cumulative_sum(costs, names, key, line, m, existing) == if names.contains(file) {
            cost_at(costs[file], line).cumulative as int
        } else {
            0
        },
    decreases names.len(),
{
    if names.len() > 0 {
        let front = names.drop_last();
        let last = names.len() - 1;
        assert(names[last] == names.last());
        assert(forall|i: int| 0 <= i < front.len() ==> #[trigger] front[i] == names[i]);
        lemma_sum_of_one(costs, front, file, key, line, m, existing);
        if names.last() == file {
            assert(!front.contains(file));
            assert(names.contains(file));
        } else {
            assert(names.contains(file) == front.contains(file)) by {
                if names.contains(file) {
                    let i = choose|i: int| 0 <= i < names.len() && names[i] == file;
                    assert(front[i] == file);
                }
                if front.contains(file) {
                    let i = choose|i: int| 0 <= i < front.len() && front[i] == file;
                    assert(names[i] == file);
                }
            }
        }
    }
}

/// The costs of a file that alone was found at its path are there unchanged.
pub proof fn lemma_relocated_alone(
    after: Map<Seq<char>, Map<u64, LineCost>>,
    before: Map<Seq<char>, Map<u64, LineCost>>,
    names: Seq<Seq<char>>,
    m: ResolverModel,
    existing: Seq<Seq<char>>,
    file: Seq<char>,
    key: Seq<char>,
)
    requires
        costs_relocated(after, before, names, m, existing),
        names.no_duplicates(),
        names.contains(file),
        resolution(m, file, existing) == Some(key),
        forall|i: int|
            0 <= i < names.len() ==> (resolution(m, #[trigger] names[i], existing) == Some(key)
                ==> names[i] == file),
    ensures
        after.contains_key(key),
        after[key] == before[file],
{
    let k = choose|k: int| 0 <= k < names.len() && names[k] == file;
    assert(resolution(m, names[k], existing) == Some(key));
    assert(found_at(names, key, m, existing));
    assert(after.contains_key(key));
    assert forall|line: u64| after[key].contains_key(line) == before[file].contains_key(line) && (
    after[key].contains_key(line) ==> after[key][line] == before[file][line]) by {
        lemma_sum_of_one(before, names, file, key, line, m, existing);
        assert(after[key].contains_key(line) == line_found_at(
            before,
            names,
            key,
            line,
            m,
            existing,
        ));
        if before[file].contains_key(line) {
            assert(names[k] == file);
        }
    }
    assert(after[key] =~= before[file]);
}

/// One more file adds the costs of its line to those at the path where it was found, and
/// to no others; without files there are none.
pub proof fn lemma_one_more_file(
    costs: Map<Seq<char>, Map<u64, LineCost>>,
    names: Seq<Seq<char>>,
    file: Seq<char>,
    key: Seq<char>,
    line: u64,
    m: ResolverModel,
    existing: Seq<Seq<char>>,
)
    ensures
        flat_sum(costs, seq![], key, line, m, existing) == 0,
        cumulative_sum(costs, seq![], key, line, m, existing) == 0,
        resolution(m, file, existing) == Some(key) && costs[file].contains_key(line) ==> {
            &&& flat_sum(costs, names.push(file), key, line, m, existing) == flat_sum(
                costs,
                names,
                key,
                line,
                m,
                existing,
            ) + costs[file][line].flat
            &&& cumulative_sum(costs, names.push(file), key, line, m, existing) == cumulative_sum(
                costs,
                names,
                key,
                line,
                m,
                existing,
            ) + costs[file][line].cumulative
        },
        resolution(m, file, existing) != Some(key) || !costs[file].contains_key(line) ==> {
            &&& flat_sum(costs, names.push(file), key, line, m, existing) == flat_sum(
                costs,
                names,
                key,
                line,
                m,
                existing,
            )
            &&& cumulative_sum(costs, names.push(file), key, line, m, existing) == cumulative_sum(
                costs,
                names,
                key,
                line,
                m,
                existing,
            )
        },
{
    assert(names.push(file).drop_last() =~= names);
}

/// After relocation there are costs at a path and a line exactly where a file that was
/// found at the path has some there, and they are the sums over all such files.
pub proof fn lemma_relocated_sums(
    after: Map<Seq<char>, Map<u64, LineCost>>,
    before: Map<Seq<char>, Map<u64, LineCost>>,
    names: Seq<Seq<char>>,
    m: ResolverModel,
    existing: Seq<Seq<char>>,
    key: Seq<char>,
    line: u64,
)
    requires
        costs_relocated(after, before, names, m, existing),
    ensures
        after.contains_key(key) <==> exists|i: int|
            0 <= i < names.len() && resolution(m, #[trigger] names[i], existing) == Some(key),
        after.contains_key(key) && after[key].contains_key(line) <==> exists|i: int|
            0 <= i < names.len() && resolution(m, #[trigger] names[i], existing) == Some(key)
                && before[names[i]].contains_key(line),
        after.contains_key(key) && after[key].contains_key(line) ==> after[key][line].flat
            == flat_sum(before, names, key, line, m, existing) && after[key][line].cumulative
            == cumulative_sum(before, names, key, line, m, existing),
{
    assert(after.contains_key(key) == found_at(names, key, m, existing));
    if after.contains_key(key) {
        assert(after[key].contains_key(line) == line_found_at(
            before,
            names,
            key,
            line,
            m,
            existing,
        ));
    }
    if exists|i: int|
        0 <= i < names.len() && resolution(m, #[trigger] names[i], existing) == Some(key)
            && before[names[i]].contains_key(line) {
        assert(line_found_at(before, names, key, line, m, existing));
        assert(found_at(names, key, m, existing));
    }
}

/// A hotspot keeps all but the path of its file, which becomes that of the workspace where
/// the file was found there.
pub proof fn lemma_hotspot_relocated(
    after: HotspotFunction,
    before: HotspotFunction,
    m: ResolverModel,
    existing: Seq<Seq<char>>,
)
    requires
        hotspot_relocated(after, before, m, existing),
    ensures
        after.rank == before.rank,
        after.name@ == before.name@,
        after.start_line == before.start_line,
        after.flat == before.flat,
        after.cumulative == before.cumulative,
        resolution(m, before.filename@, existing) is None ==> after.filename@ == before.filename@,
        resolution(m, before.filename@, existing) is Some ==> after.filename@ == resolution(
            m,
            before.filename@,
            existing,
        ).unwrap(),
{
}

/// Costs are relocated unless a sum, over the files that were found at one path, leaves the
/// range of 64 bits.
pub proof fn lemma_relocation_fits(
    costs: Map<Seq<char>, Map<u64, LineCost>>,
    names: Seq<Seq<char>>,
    m: ResolverModel,
    existing: Seq<Seq<char>>,
)
    ensures
        relocation_fits(costs, names, m, existing) <==> {
            &&& forall|key: Seq<char>, line: u64|
                -0x8000_0000_0000_0000 <= #[trigger] flat_sum(
                    costs,
                    names,
                    key,
                    line,
                    m,
                    existing,
                ) <= 0x7fff_ffff_ffff_ffff
            &&& forall|key: Seq<char>, line: u64|
                -0x8000_0000_0000_0000 <= #[trigger] cumulative_sum(
                    costs,
                    names,
                    key,
                    line,
                    m,
                    existing,
                ) <= 0x7fff_ffff_ffff_ffff
        },
{
    if relocation_fits(costs, names, m, existing) {
        assert forall|key: Seq<char>, line: u64|
            -0x8000_0000_0000_0000 <= #[trigger] cumulative_sum(
                costs,
                names,
                key,
                line,
                m,
                existing,
            ) <= 0x7fff_ffff_ffff_ffff by {
            assert(flat_sum(costs, names, key, line, m, existing) <= i64::MAX);
        }
    }
}

} // verus!
