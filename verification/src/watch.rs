//! Detection of changed profile files by their modification times.

use crate::rules::components_by;
use crate::rules::same_components;
use crate::rules::PathRules;
use vstd::prelude::*;

verus! {

/// How many poll cycles between full re-discovery of profile files.
/// Between re-discoveries, only the known files are stat-checked (cheap).
pub const REDISCOVER_EVERY_N_CYCLES: u32 = 6;

/// A file and its modification time in nanoseconds since the epoch, where it has one.
#[derive(Debug, Clone)]
pub struct FileStat {
    pub path: String,
    pub mtime: Option<i128>,
}

/// What a `FileStat` holds.
pub struct FileModel {
    pub path: Seq<char>,
    pub mtime: Option<i128>,
}

impl DeepView for FileStat {
    type V = FileModel;

    open spec fn deep_view(&self) -> FileModel {
        FileModel { path: self.path@, mtime: self.mtime }
    }
}

/// A file told by the components of its path, and its modification time.
pub struct StatModel {
    pub path: Seq<Seq<char>>,
    pub mtime: Option<i128>,
}

/// The files, told by the components of their paths.
pub open spec fn told(files: Seq<FileModel>, rules: PathRules) -> Seq<StatModel> {
    files.map_values(
        |file: FileModel|
            StatModel { path: components_by(file.path, rules), mtime: file.mtime },
    )
}

/// The modification time; the epoch where the file has none.
pub open spec fn time_of(stat: StatModel) -> i128 {
    match stat.mtime {
        Some(mtime) => mtime,
        None => 0,
    }
}

/// The modification times of the files; the last one where a file occurs twice.
pub open spec fn times(stats: Seq<StatModel>) -> Map<Seq<Seq<char>>, i128>
    decreases stats.len(),
{
    if stats.len() == 0 {
        Map::empty()
    } else {
        times(stats.drop_last()).insert(stats.last().path, time_of(stats.last()))
    }
}

/// A file is new, or its time is not the known one.
pub open spec fn is_mismatch(known: Map<Seq<Seq<char>>, i128>, stat: StatModel) -> bool {
    !known.contains_key(stat.path) || known[stat.path] != time_of(stat)
}

/// A file was added, removed, or modified.
pub open spec fn is_changed(known: Map<Seq<Seq<char>>, i128>, stats: Seq<StatModel>) -> bool {
    ||| exists|i: int| 0 <= i < stats.len() && is_mismatch(known, #[trigger] stats[i])
    ||| times(stats) != known
}

/// The modification time of a file, where it is listed and has one.
pub open spec fn listed(stats: Seq<StatModel>, path: Seq<Seq<char>>) -> Option<i128>
    decreases stats.len(),
{
    if stats.len() == 0 {
        None
    } else if stats.last().path == path {
        stats.last().mtime
    } else {
        listed(stats.drop_last(), path)
    }
}

/// The known files that still exist, with their present times.
pub open spec fn still_known(known: Map<Seq<Seq<char>>, i128>, stats: Seq<StatModel>) -> Map<
    Seq<Seq<char>>,
    i128,
> {
    Map::new(
        |path: Seq<Seq<char>>| known.contains_key(path) && listed(stats, path) is Some,
        |path: Seq<Seq<char>>| listed(stats, path).unwrap(),
    )
}

/// The number of a cycle after the one with the given number.
pub open spec fn next_cycle(cycle: u32) -> u32 {
    if cycle + 1 >= REDISCOVER_EVERY_N_CYCLES {
        0
    } else {
        (cycle + 1) as u32
    }
}

/// Tracks file modification times to detect changes.
pub struct FileWatcher {
    /// Whose rules the paths follow.
    rules: PathRules,
    /// Last known mtime for each tracked file.
    mtimes: Vec<FileStat>,
    /// Counter for re-discovery cycles.
    cycle: u32,
}

/// What a `FileWatcher` holds.
#[verifier::ext_equal]
pub struct WatcherModel {
    /// Whose rules the paths follow.
    pub rules: PathRules,
    pub mtimes: Map<Seq<Seq<char>>, i128>,
    pub cycle: u32,
}

impl View for FileWatcher {
    type V = WatcherModel;

    closed spec fn view(&self) -> WatcherModel {
        WatcherModel {
            rules: self.rules,
            mtimes: times(told(self.mtimes.deep_view(), self.rules)),
            cycle: self.cycle,
        }
    }
}

proof fn lemma_times_listed(stats: Seq<StatModel>, path: Seq<Seq<char>>)
    ensures
        times(stats).contains_key(path) <==> exists|i: int|
            0 <= i < stats.len() && (#[trigger] stats[i]).path == path,
    decreases stats.len(),
{
    if stats.len() > 0 {
        let rest = stats.drop_last();
        lemma_times_listed(rest, path);
        if exists|i: int| 0 <= i < rest.len() && (#[trigger] rest[i]).path == path {
            let i = choose|i: int| 0 <= i < rest.len() && (#[trigger] rest[i]).path == path;
            assert(stats[i].path == path);
        }
        if exists|i: int| 0 <= i < stats.len() && (#[trigger] stats[i]).path == path {
            let i = choose|i: int| 0 <= i < stats.len() && (#[trigger] stats[i]).path == path;
            if i < rest.len() {
                assert(rest[i].path == path);
            }
        }
        assert(stats[stats.len() - 1] == stats.last());
    }
}

/// The known time of a file.
fn known_time(stats: &[FileStat], path: &str, rules: PathRules) -> (r: Option<i128>)
    ensures
        match r {
            Some(t) => times(told(stats.deep_view(), rules)).contains_key(components_by(path@, rules)) && times(
                told(stats.deep_view(), rules),
            )[components_by(path@, rules)] == t,
            None => !times(told(stats.deep_view(), rules)).contains_key(components_by(path@, rules)),
        },
{
    let ghost all = told(stats.deep_view(), rules);
    let mut i: usize = stats.len();
    assert(all.take(i as int) =~= all);
    while i > 0
        invariant
            i <= stats@.len(),
            all == told(stats.deep_view(), rules),
            times(all).contains_key(components_by(path@, rules)) <==> times(all.take(i as int)).contains_key(components_by(path@, rules)),
            times(all).contains_key(components_by(path@, rules)) ==> times(all)[components_by(path@, rules)] == times(
                all.take(i as int),
            )[components_by(path@, rules)],
        decreases i,
    {
        let ghost t = all.take(i as int);
        assert(t.drop_last() =~= all.take(i - 1));
        assert(t.last() == all[i - 1] && stats.deep_view()[i - 1] == stats@[i - 1].deep_view());
        i -= 1;
        if same_components(stats[i].path.as_str(), path, rules) {
            return Some(
                match stats[i].mtime {
                    Some(mtime) => mtime,
                    None => 0,
                },
            );
        }
    }
    assert(all.take(0) =~= seq![]);
    None
}

/// The present time of a file, where it is listed and has one.
fn listed_time(stats: &[FileStat], path: &str, rules: PathRules) -> (r: Option<i128>)
    ensures
        r == listed(told(stats.deep_view(), rules), components_by(path@, rules)),
{
    let ghost all = told(stats.deep_view(), rules);
    let mut i: usize = stats.len();
    assert(all.take(i as int) =~= all);
    while i > 0
        invariant
            i <= stats@.len(),
            all == told(stats.deep_view(), rules),
            listed(all, components_by(path@, rules)) == listed(all.take(i as int), components_by(path@, rules)),
        decreases i,
    {
        let ghost t = all.take(i as int);
        assert(t.drop_last() =~= all.take(i - 1));
        assert(t.last() == all[i - 1] && stats.deep_view()[i - 1] == stats@[i - 1].deep_view());
        i -= 1;
        if same_components(stats[i].path.as_str(), path, rules) {
            return stats[i].mtime;
        }
    }
    assert(all.take(0) =~= seq![]);
    None
}

/// The files with their times, the epoch in place of a time that is missing.
fn copy_stats(stats: &[FileStat], rules: PathRules) -> (r: Vec<FileStat>)
    ensures
        times(told(r.deep_view(), rules)) == times(told(stats.deep_view(), rules)),
        r@.len() == stats@.len(),
        forall|i: int| 0 <= i < r@.len() ==> (#[trigger] r@[i]).path@ == stats@[i].path@,
{
    let ghost all = told(stats.deep_view(), rules);
    let mut r: Vec<FileStat> = Vec::new();
    let mut i: usize = 0;
    assert(all.take(0) =~= seq![]);
    assert(told(r.deep_view(), rules) =~= seq![]);
    while i < stats.len()
        invariant
            i <= stats@.len(),
            all == told(stats.deep_view(), rules),
            r@.len() == i,
            times(told(r.deep_view(), rules)) == times(all.take(i as int)),
            forall|k: int| 0 <= k < i ==> (#[trigger] r@[k]).path@ == stats@[k].path@,
        decreases stats.len() - i,
    {
        let ghost before = told(r.deep_view(), rules);
        let ghost t = all.take(i + 1);
        assert(t.drop_last() =~= all.take(i as int));
        assert(t.last() == all[i as int] && stats.deep_view()[i as int] == stats@[i as int].deep_view());
        r.push(
            FileStat { path: stats[i].path.as_str().to_string(), mtime: stats[i].mtime },
        );
        assert(told(r.deep_view(), rules).drop_last() =~= before);
        assert(told(r.deep_view(), rules).last().path == t.last().path);
        i += 1;
    }
    assert(all.take(i as int) =~= all);
    r
}

impl FileWatcher {
    /// The counter stays below the number of cycles.
    #[verifier::type_invariant]
    spec fn counts(self) -> bool {
        self.cycle < REDISCOVER_EVERY_N_CYCLES
    }

    /// A watcher that knows no file.
    pub fn new(rules: PathRules) -> (r: FileWatcher)
        ensures
            r@.rules == rules,
            r@.mtimes == Map::<Seq<Seq<char>>, i128>::empty(),
            r@.cycle == 0,
    {
        let r = FileWatcher { rules, mtimes: Vec::new(), cycle: 0 };
        assert(told(r.mtimes.deep_view(), rules) =~= seq![]);
        r
    }

    /// Seed the watcher with the initial set of files discovered at startup.
    /// This records their mtimes without reporting changes, so the first
    /// poll cycle won't trigger a spurious reload.
    pub fn seed(&mut self, files: &[FileStat])
        ensures
            final(self)@ == (WatcherModel { mtimes: times(told(files.deep_view(), old(self)@.rules)), ..old(self)@ }),
    {
        let rules: PathRules = self.rules;
        let mtimes: Vec<FileStat> = copy_stats(files, rules);
        proof {
            use_type_invariant(&*self);
        }
        self.mtimes = mtimes;
    }

    /// The files that are tracked.
    pub fn known_files(&self) -> (r: Vec<String>)
        ensures
            forall|path: Seq<Seq<char>>| #[trigger]
                self@.mtimes.contains_key(path) <==> exists|i: int|
                    0 <= i < r@.len() && components_by((#[trigger] r@[i])@, self@.rules) == path,
    {
        let rules: PathRules = self.rules;
        let ghost all = told(self.mtimes.deep_view(), rules);
        let mut r: Vec<String> = Vec::new();
        let mut i: usize = 0;
        while i < self.mtimes.len()
            invariant
                rules == self.rules,
                i <= self.mtimes@.len(),
                all == told(self.mtimes.deep_view(), rules),
                r@.len() == i,
                forall|k: int| 0 <= k < i ==> components_by((#[trigger] r@[k])@, rules) == all[k].path,
            decreases self.mtimes.len() - i,
        {
            r.push(self.mtimes[i].path.as_str().to_string());
            i += 1;
        }
        proof {
            assert forall|path: Seq<Seq<char>>| #[trigger]
                self@.mtimes.contains_key(path) <==> exists|k: int|
                    0 <= k < r@.len() && components_by((#[trigger] r@[k])@, rules) == path by {
                lemma_times_listed(all, path);
                if exists|k: int| 0 <= k < r@.len() && components_by((#[trigger] r@[k])@, rules) == path {
                    let k = choose|k: int|
                        0 <= k < r@.len() && components_by((#[trigger] r@[k])@, rules) == path;
                    assert(all[k].path == path);
                }
                if self@.mtimes.contains_key(path) {
                    let k = choose|k: int| 0 <= k < all.len() && (#[trigger] all[k]).path == path;
                    assert(components_by(r@[k]@, rules) == path);
                }
            }
        }
        r
    }

    /// Check only the already-known files for mtime changes, given their present
    /// times. A file that is not listed, or has no time, was deleted.
    /// Returns true if any known file was modified or deleted.
    pub fn check_known_files(&mut self, current: &[FileStat]) -> (r: bool)
        ensures
            final(self)@ == (WatcherModel {
                mtimes: still_known(old(self)@.mtimes, told(current.deep_view(), old(self)@.rules)),
                ..old(self)@
            }),
            r == (final(self)@.mtimes != old(self)@.mtimes),
    {
        let rules: PathRules = self.rules;
        let ghost known = self@.mtimes;
        let ghost all = told(self.mtimes.deep_view(), rules);
        let ghost stats = told(current.deep_view(), rules);
        let mut mtimes: Vec<FileStat> = Vec::new();
        let mut changed: bool = false;
        let mut i: usize = 0;
        assert(told(mtimes.deep_view(), rules) =~= seq![]);
        while i < self.mtimes.len()
            invariant
                rules == self.rules,
                i <= self.mtimes@.len(),
                all == told(self.mtimes.deep_view(), rules),
                known == times(all),
                stats == told(current.deep_view(), rules),
                forall|path: Seq<Seq<char>>|
                    times(told(mtimes.deep_view(), rules)).contains_key(path) <==> listed(stats, path) is Some
                        && exists|k: int| 0 <= k < i && (#[trigger] all[k]).path == path,
                forall|path: Seq<Seq<char>>| #[trigger]
                    times(told(mtimes.deep_view(), rules)).contains_key(path) ==> times(
                        told(mtimes.deep_view(), rules),
                    )[path] == listed(stats, path).unwrap(),
                changed <==> exists|k: int|
                    0 <= k < i && listed(stats, (#[trigger] all[k]).path) != Some(
                        known[all[k].path],
                    ),
            decreases self.mtimes.len() - i,
        {
            let ghost before = told(mtimes.deep_view(), rules);
            let ghost was = changed;
            let path: &str = self.mtimes[i].path.as_str();
            assert(all[i as int].path == components_by(path@, rules));
            let present: Option<i128> = listed_time(current, path, rules);
            let earlier: Option<i128> = known_time(self.mtimes.as_slice(), path, rules);
            assert(known.contains_key(components_by(path@, rules))) by {
                lemma_times_listed(all, components_by(path@, rules));
            }
            match present {
                Some(mtime) => {
                    mtimes.push(FileStat { path: path.to_string(), mtime: Some(mtime) });
                    assert(told(mtimes.deep_view(), rules).drop_last() =~= before);
                    assert(told(mtimes.deep_view(), rules).last().path == components_by(path@, rules));
                    assert(times(told(mtimes.deep_view(), rules)) == times(before).insert(components_by(path@, rules), mtime));
                },
                None => {},
            }
            match (present, earlier) {
                (Some(a), Some(b)) => {
                    if a != b {
                        changed = true;
                    }
                },
                _ => {
                    changed = true;
                },
            }
            proof {
                assert forall|p: Seq<Seq<char>>|
                    times(told(mtimes.deep_view(), rules)).contains_key(p) <==> listed(stats, p) is Some
                        && exists|k: int| 0 <= k < i + 1 && (#[trigger] all[k]).path == p by {
                    if exists|k: int| 0 <= k < i + 1 && (#[trigger] all[k]).path == p {
                        let k = choose|k: int| 0 <= k < i + 1 && (#[trigger] all[k]).path == p;
                        if k < i {
                            assert(all[k].path == p);
                        }
                    }
                    if p == components_by(path@, rules) {
                        assert(all[i as int].path == p);
                    }
                    if exists|k: int| 0 <= k < i && (#[trigger] all[k]).path == p {
                        let k = choose|k: int| 0 <= k < i && (#[trigger] all[k]).path == p;
                        assert(all[k].path == p);
                    }
                }
                assert(changed <==> exists|k: int|
                    0 <= k < i + 1 && listed(stats, (#[trigger] all[k]).path) != Some(
                        known[all[k].path],
                    )) by {
                    if was {
                        let k = choose|k: int|
                            0 <= k < i && listed(stats, (#[trigger] all[k]).path) != Some(
                                known[all[k].path],
                            );
                        assert(0 <= k < i + 1);
                    }
                }
            }
            i += 1;
        }
        proof {
            let next = times(told(mtimes.deep_view(), rules));
            assert forall|path: Seq<Seq<char>>| known.contains_key(path) <==> exists|k: int|
                0 <= k < all.len() && (#[trigger] all[k]).path == path by {
                lemma_times_listed(all, path);
            }
            assert(next =~= still_known(known, stats));
            if changed {
                let k = choose|k: int|
                    0 <= k < all.len() && listed(stats, (#[trigger] all[k]).path) != Some(
                        known[all[k].path],
                    );
                let path = all[k].path;
                assert(known.contains_key(path));
                assert(next.contains_key(path) ==> next[path] != known[path]);
            } else {
                assert forall|path: Seq<Seq<char>>| known.contains_key(path) implies next.contains_key(
                    path,
                ) && next[path] == known[path] by {
                    let k = choose|k: int| 0 <= k < all.len() && (#[trigger] all[k]).path == path;
                    assert(listed(stats, all[k].path) == Some(known[all[k].path]));
                }
                assert(next =~= known);
            }
        }
        proof {
            use_type_invariant(&*self);
        }
        self.mtimes = mtimes;
        changed
    }

    /// Returns true if it's time for a full re-discovery of profile files.
    /// Call this once per poll cycle to decide whether to run the expensive glob.
    pub fn should_rediscover(&mut self) -> (r: bool)
        ensures
            r == (next_cycle(old(self)@.cycle) == 0),
            final(self)@ == (WatcherModel { cycle: next_cycle(old(self)@.cycle), ..old(self)@ }),
    {
        proof {
            use_type_invariant(&*self);
        }
        if self.cycle + 1 >= REDISCOVER_EVERY_N_CYCLES {
            self.cycle = 0;
            true
        } else {
            self.cycle = self.cycle + 1;
            false
        }
    }

    /// Check a list of files for changes since last check.
    /// Returns true if any file was added, removed, or modified.
    /// This is used after a full re-discovery to detect new/removed files.
    pub fn check_for_changes(&mut self, current_files: &[FileStat]) -> (r: bool)
        ensures
            r == is_changed(old(self)@.mtimes, told(current_files.deep_view(), old(self)@.rules)),
            final(self)@ == (WatcherModel {
                mtimes: times(told(current_files.deep_view(), old(self)@.rules)),
                ..old(self)@
            }),
    {
        let rules: PathRules = self.rules;
        let ghost known = self@.mtimes;
        let ghost all = told(self.mtimes.deep_view(), rules);
        let ghost stats = told(current_files.deep_view(), rules);
        let mtimes: Vec<FileStat> = copy_stats(current_files, rules);
        let mut changed: bool = false;
        let mut i: usize = 0;
        while i < current_files.len()
            invariant
                rules == self.rules,
                i <= current_files@.len(),
                known == times(told(self.mtimes.deep_view(), rules)),
                stats == told(current_files.deep_view(), rules),
                changed <==> exists|k: int| 0 <= k < i && is_mismatch(known, #[trigger] stats[k]),
            decreases current_files.len() - i,
        {
            let ghost was = changed;
            let mtime: i128 = match current_files[i].mtime {
                Some(mtime) => mtime,
                None => 0,
            };
            assert(current_files.deep_view()[i as int] == current_files@[i as int].deep_view());
            assert(stats[i as int] == (StatModel {
                path: components_by(current_files@[i as int].path@, rules),
                mtime: current_files@[i as int].mtime,
            }));
            match known_time(self.mtimes.as_slice(), current_files[i].path.as_str(), rules) {
                Some(earlier) => {
                    if earlier != mtime {
                        changed = true;
                    }
                },
                None => {
                    changed = true;
                },
            }
            proof {
                if was {
                    let k = choose|k: int|
                        0 <= k < i && is_mismatch(known, #[trigger] stats[k]);
                    assert(0 <= k < i + 1);
                }
            }
            i += 1;
        }
        let ghost mismatch = changed;
        let mut n: usize = 0;
        while n < self.mtimes.len()
            invariant
                rules == self.rules,
                n <= self.mtimes@.len(),
                all == told(self.mtimes.deep_view(), rules),
                times(told(mtimes.deep_view(), rules)) == times(stats),
                changed <==> mismatch || exists|k: int|
                    0 <= k < n && !times(stats).contains_key((#[trigger] all[k]).path),
            decreases self.mtimes.len() - n,
        {
            let ghost was = changed;
            assert(all[n as int].path == components_by(self.mtimes@[n as int].path@, rules));
            if known_time(mtimes.as_slice(), self.mtimes[n].path.as_str(), rules).is_none() {
                changed = true;
            }
            proof {
                if was && !mismatch {
                    let k = choose|k: int|
                        0 <= k < n && !times(stats).contains_key((#[trigger] all[k]).path);
                    assert(0 <= k < n + 1);
                }
            }
            n += 1;
        }
        proof {
            if changed && !mismatch {
                let k = choose|k: int|
                    0 <= k < n && !times(stats).contains_key((#[trigger] all[k]).path);
                lemma_times_listed(all, all[k].path);
                assert(known.contains_key(all[k].path));
            }
            if !changed {
                lemma_times_within(known, stats);
                assert forall|path: Seq<Seq<char>>| known.contains_key(path) implies times(
                    stats,
                ).contains_key(path) by {
                    lemma_times_listed(all, path);
                    let k = choose|k: int| 0 <= k < all.len() && (#[trigger] all[k]).path == path;
                    assert(times(stats).contains_key(all[k].path));
                }
                assert(times(stats) =~= known);
            }
        }
        proof {
            use_type_invariant(&*self);
        }
        self.mtimes = mtimes;
        changed
    }
}

/// Where no listed file is new or modified, every listed time is the known one.
proof fn lemma_times_within(known: Map<Seq<Seq<char>>, i128>, stats: Seq<StatModel>)
    requires
        forall|i: int| 0 <= i < stats.len() ==> !is_mismatch(known, #[trigger] stats[i]),
    ensures
        forall|path: Seq<Seq<char>>| #[trigger]
            times(stats).contains_key(path) ==> known.contains_key(path) && known[path] == times(
                stats,
            )[path],
    decreases stats.len(),
{
    if stats.len() > 0 {
        let rest = stats.drop_last();
        assert forall|i: int| 0 <= i < rest.len() implies !is_mismatch(known, #[trigger] rest[i]) by {
            assert(rest[i] == stats[i]);
        }
        lemma_times_within(known, rest);
        assert(!is_mismatch(known, stats[stats.len() - 1]));
        assert(times(stats) == times(rest).insert(stats.last().path, time_of(stats.last())));
        assert forall|path: Seq<Seq<char>>| #[trigger] times(stats).contains_key(path) implies known.contains_key(
            path,
        ) && known[path] == times(stats)[path] by {
            if path != stats.last().path {
                assert(times(rest).contains_key(path));
            }
        }
    }
}

/// One file has one time, however often it is listed.
pub open spec fn one_time_each(stats: Seq<StatModel>) -> bool {
    forall|i: int, j: int|
        0 <= i < j < stats.len() && (#[trigger] stats[i]).path == (#[trigger] stats[j]).path
            ==> time_of(stats[i]) == time_of(stats[j])
}

proof fn lemma_times_at(stats: Seq<StatModel>, i: int)
    requires
        one_time_each(stats),
        0 <= i < stats.len(),
    ensures
        times(stats).contains_key(stats[i].path),
        times(stats)[stats[i].path] == time_of(stats[i]),
    decreases stats.len(),
{
    let rest = stats.drop_last();
    if i < rest.len() {
        assert forall|a: int, b: int|
            0 <= a < b < rest.len() && (#[trigger] rest[a]).path == (
            #[trigger] rest[b]).path implies time_of(rest[a]) == time_of(rest[b]) by {
            assert(rest[a] == stats[a] && rest[b] == stats[b]);
        }
        lemma_times_at(rest, i);
        assert(rest[i] == stats[i]);
        assert(stats.last() == stats[stats.len() - 1]);
    }
}

/// The same files with the same times are no change: neither after they were seeded,
/// nor after they were checked.
pub proof fn lemma_unchanged(stats: Seq<StatModel>)
    requires
        one_time_each(stats),
    ensures
        !is_changed(times(stats), stats),
{
    assert forall|i: int| 0 <= i < stats.len() implies !is_mismatch(
        times(stats),
        #[trigger] stats[i],
    ) by {
        lemma_times_at(stats, i);
    }
}

/// Where a file that is listed has a time, that is the time that it is known by.
proof fn lemma_listed_time(stats: Seq<StatModel>, path: Seq<Seq<char>>)
    ensures
        listed(stats, path) matches Some(mtime) ==> times(stats).contains_key(path) && times(
            stats,
        )[path] == mtime,
    decreases stats.len(),
{
    if stats.len() > 0 {
        lemma_listed_time(stats.drop_last(), path);
    }
}

/// Files that were seeded, and still have the same times, are known as they were.
pub proof fn lemma_seeded_known(stats: Seq<StatModel>)
    requires
        forall|i: int| 0 <= i < stats.len() ==> listed(stats, (#[trigger] stats[i]).path) is Some,
    ensures
        still_known(times(stats), stats) == times(stats),
{
    let known = times(stats);
    assert forall|path: Seq<Seq<char>>| known.contains_key(path) implies listed(stats, path) == Some(
        known[path],
    ) by {
        lemma_times_listed(stats, path);
        let i = choose|i: int| 0 <= i < stats.len() && (#[trigger] stats[i]).path == path;
        assert(listed(stats, stats[i].path) is Some);
        lemma_listed_time(stats, path);
    }
    assert(still_known(known, stats) =~= known);
}

/// A second check of the known files against the same times finds no change.
pub proof fn lemma_known_once(known: Map<Seq<Seq<char>>, i128>, stats: Seq<StatModel>)
    ensures
        still_known(still_known(known, stats), stats) == still_known(known, stats),
{
    assert(still_known(still_known(known, stats), stats) =~= still_known(known, stats));
}

/// A file that is not known, or has another time than the known one, is a change; so is
/// a known file that is missing.
pub proof fn lemma_change_found(
    known: Map<Seq<Seq<char>>, i128>,
    stats: Seq<StatModel>,
    path: Seq<Seq<char>>,
)
    requires
        times(stats).contains_key(path) != known.contains_key(path) || (known.contains_key(path)
            && times(stats)[path] != known[path]),
    ensures
        is_changed(known, stats),
{
}

/// The number of the cycle after `n` of them.
pub open spec fn cycle_after(n: nat) -> u32
    decreases n,
{
    if n == 0 {
        0
    } else {
        next_cycle(cycle_after((n - 1) as nat))
    }
}

/// Of the cycles of a new watcher, the files are discovered anew in exactly those whose
/// number is a multiple of `REDISCOVER_EVERY_N_CYCLES`: in every sixth.
pub proof fn lemma_rediscovered(n: nat)
    ensures
        cycle_after(n) == 0 <==> n % 6 == 0,
        cycle_after(n) == n % REDISCOVER_EVERY_N_CYCLES as nat,
        cycle_after(n) == 0 <==> n % REDISCOVER_EVERY_N_CYCLES as nat == 0,
    decreases n,
{
    if n > 0 {
        lemma_rediscovered((n - 1) as nat);
    }
}

/// The time of a file is, to the nanosecond, that of its last entry; the epoch stands in
/// for one that is missing. A file is known where it is listed.
pub proof fn lemma_time_is_kept(stats: Seq<StatModel>, i: int)
    requires
        0 <= i < stats.len(),
        forall|k: int| i < k < stats.len() ==> (#[trigger] stats[k]).path != stats[i].path,
    ensures
        times(stats).contains_key(stats[i].path),
        stats[i].mtime is Some ==> times(stats)[stats[i].path] == stats[i].mtime.unwrap(),
        stats[i].mtime is None ==> times(stats)[stats[i].path] == 0,
        listed(stats, stats[i].path) == stats[i].mtime,
    decreases stats.len(),
{
    let rest = stats.drop_last();
    if i < rest.len() {
        assert forall|k: int| i < k < rest.len() implies (#[trigger] rest[k]).path
            != rest[i].path by {
            assert(rest[k] == stats[k]);
        }
        lemma_time_is_kept(rest, i);
        assert(stats[stats.len() - 1].path != stats[i].path);
    }
}

/// A file that is not listed has no time.
pub proof fn lemma_only_listed(stats: Seq<StatModel>, path: Seq<Seq<char>>)
    requires
        forall|i: int| 0 <= i < stats.len() ==> (#[trigger] stats[i]).path != path,
    ensures
        !times(stats).contains_key(path),
        listed(stats, path) is None,
    decreases stats.len(),
{
    if stats.len() > 0 {
        let rest = stats.drop_last();
        assert forall|i: int| 0 <= i < rest.len() implies (#[trigger] rest[i]).path != path by {
            assert(rest[i] == stats[i]);
        }
        lemma_only_listed(rest, path);
        assert(stats.last() == stats[stats.len() - 1]);
    }
}

/// Nothing of a file but its path is read when it is told by its components.
pub proof fn lemma_told(files: Seq<FileModel>, rules: PathRules)
    ensures
        told(files, rules).len() == files.len(),
        forall|i: int|
            0 <= i < files.len() ==> (#[trigger] told(files, rules)[i]).mtime == files[i].mtime
                && told(files, rules)[i].path == components_by(files[i].path, rules),
{
}

/// A new time, by whatever it differs, is a change; so is a file that was not known before,
/// or is not listed any more; and nothing else is.
pub proof fn lemma_change_exact(known: Map<Seq<Seq<char>>, i128>, stats: Seq<StatModel>)
    ensures
        is_changed(known, stats) <==> {
            ||| exists|i: int|
                0 <= i < stats.len() && (!known.contains_key((#[trigger] stats[i]).path) || (
                stats[i].mtime is Some && known[stats[i].path] != stats[i].mtime.unwrap()) || (
                stats[i].mtime is None && known[stats[i].path] != 0))
            ||| exists|path: Seq<Seq<char>>| #[trigger]
                known.contains_key(path) && forall|i: int|
                    0 <= i < stats.len() ==> (#[trigger] stats[i]).path != path
        },
{
    if exists|path: Seq<Seq<char>>| #[trigger]
        known.contains_key(path) && forall|i: int|
            0 <= i < stats.len() ==> (#[trigger] stats[i]).path != path {
        let path = choose|path: Seq<Seq<char>>| #[trigger]
            known.contains_key(path) && forall|i: int|
                0 <= i < stats.len() ==> (#[trigger] stats[i]).path != path;
        lemma_only_listed(stats, path);
        assert(times(stats) != known);
    }
    if !(exists|i: int|
        0 <= i < stats.len() && (!known.contains_key((#[trigger] stats[i]).path) || (
        stats[i].mtime is Some && known[stats[i].path] != stats[i].mtime.unwrap()) || (
        stats[i].mtime is None && known[stats[i].path] != 0))) {
        assert forall|i: int| 0 <= i < stats.len() implies !is_mismatch(
            known,
            #[trigger] stats[i],
        ) by {}
        lemma_times_within(known, stats);
        if !(exists|path: Seq<Seq<char>>| #[trigger]
            known.contains_key(path) && forall|i: int|
                0 <= i < stats.len() ==> (#[trigger] stats[i]).path != path) {
            assert forall|path: Seq<Seq<char>>| known.contains_key(path) implies times(
                stats,
            ).contains_key(path) by {
                lemma_times_listed(stats, path);
            }
            assert(times(stats) =~= known);
        }
    } else {
        let i = choose|i: int|
            0 <= i < stats.len() && (!known.contains_key((#[trigger] stats[i]).path) || (
            stats[i].mtime is Some && known[stats[i].path] != stats[i].mtime.unwrap()) || (
            stats[i].mtime is None && known[stats[i].path] != 0));
        assert(is_mismatch(known, stats[i]));
    }
}

/// A file that is listed once with a time, and then with another one, has changed.
pub proof fn lemma_modified_found(
    before: Seq<StatModel>,
    after: Seq<StatModel>,
    i: int,
    j: int,
)
    requires
        0 <= i < before.len(),
        forall|k: int| i < k < before.len() ==> (#[trigger] before[k]).path != before[i].path,
        0 <= j < after.len(),
        after[j].path == before[i].path,
        before[i].mtime is Some,
        after[j].mtime is Some,
        before[i].mtime != after[j].mtime,
    ensures
        is_changed(times(before), after),
{
    lemma_time_is_kept(before, i);
    lemma_change_exact(times(before), after);
    assert(times(before)[after[j].path] != after[j].mtime.unwrap());
}

/// Of the known files those stay that are listed with a time, with that time.
pub proof fn lemma_known_kept(
    known: Map<Seq<Seq<char>>, i128>,
    stats: Seq<StatModel>,
    path: Seq<Seq<char>>,
    i: int,
)
    requires
        0 <= i < stats.len(),
        stats[i].path == path,
        forall|k: int| i < k < stats.len() ==> (#[trigger] stats[k]).path != path,
    ensures
        still_known(known, stats).contains_key(path) <==> known.contains_key(path)
            && stats[i].mtime is Some,
        still_known(known, stats).contains_key(path) ==> Some(still_known(known, stats)[path])
            == stats[i].mtime,
{
    lemma_time_is_kept(stats, i);
}

/// A known file that is not listed is forgotten.
pub proof fn lemma_unlisted_forgotten(
    known: Map<Seq<Seq<char>>, i128>,
    stats: Seq<StatModel>,
    path: Seq<Seq<char>>,
)
    requires
        forall|i: int| 0 <= i < stats.len() ==> (#[trigger] stats[i]).path != path,
    ensures
        !still_known(known, stats).contains_key(path),
{
    lemma_only_listed(stats, path);
}

} // verus!
