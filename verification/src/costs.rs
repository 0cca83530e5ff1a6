//! Costs by file and line.

use crate::text::same_text;
use std::collections::BTreeMap;
use vstd::prelude::*;
use vstd::std_specs::btree::increasing_seq;
use vstd::std_specs::cmp::OrdSpec;
use vstd::std_specs::iter::IteratorSpec;

verus! {

/// Per-line cost aggregation.
#[derive(Debug, Clone, Copy, PartialEq, Eq, Structural)]
pub struct LineCost {
    /// Cost directly at this line (line was leaf of call stack).
    pub flat: i64,
    /// Cost at this line including all callees.
    pub cumulative: i64,
}

impl Default for LineCost {
    fn default() -> (r: LineCost)
        ensures
            r == (LineCost { flat: 0, cumulative: 0 }),
    {
        LineCost { flat: 0, cumulative: 0 }
    }
}

/// `cost` after one more `value`, which is counted as flat too where the line was
/// the leaf; `None` where that does not fit.
pub open spec fn increased(cost: LineCost, value: i64, leaf: bool) -> Option<LineCost> {
    let flat = if leaf {
        cost.flat + value
    } else {
        cost.flat as int
    };
    let cumulative = cost.cumulative + value;
    if i64::MIN <= flat <= i64::MAX && i64::MIN <= cumulative <= i64::MAX {
        Some(LineCost { flat: flat as i64, cumulative: cumulative as i64 })
    } else {
        None
    }
}

/// The cost of `line`, zero where it has none yet.
pub open spec fn cost_at(lines: Map<u64, LineCost>, line: u64) -> LineCost {
    if lines.contains_key(line) {
        lines[line]
    } else {
        LineCost { flat: 0, cumulative: 0 }
    }
}

impl LineCost {
    /// Adds one more value.
    pub fn increase(self, value: i64, leaf: bool) -> (r: Option<LineCost>)
        ensures
            r == increased(self, value, leaf),
    {
        match self.cumulative.checked_add(value) {
            Some(cumulative) => if leaf {
                match self.flat.checked_add(value) {
                    Some(flat) => Some(LineCost { flat, cumulative }),
                    None => None,
                }
            } else {
                Some(LineCost { flat: self.flat, cumulative })
            },
            None => None,
        }
    }
}

/// The costs of one file's lines.
#[derive(Debug, Clone)]
struct FileEntry {
    name: String,
    lines: BTreeMap<u64, LineCost>,
}

/// Per-file, per-line costs: a map from file names to line numbers to costs.
#[derive(Debug)]
pub struct FileCosts {
    entries: Vec<FileEntry>,
}

spec fn has_entry(entries: Seq<FileEntry>, name: Seq<char>) -> bool {
    exists|i: int| 0 <= i < entries.len() && #[trigger] entries[i].name@ == name
}

spec fn entry_index(entries: Seq<FileEntry>, name: Seq<char>) -> int {
    choose|i: int| 0 <= i < entries.len() && #[trigger] entries[i].name@ == name
}

spec fn all_distinct(entries: Seq<FileEntry>) -> bool {
    forall|i: int, j: int|
        0 <= i < j < entries.len() ==> #[trigger] entries[i].name@ != #[trigger] entries[j].name@
}

spec fn entries_view(entries: Seq<FileEntry>) -> Map<Seq<char>, Map<u64, LineCost>> {
    Map::new(
        |name: Seq<char>| has_entry(entries, name),
        |name: Seq<char>| entries[entry_index(entries, name)].lines@,
    )
}

proof fn lemma_entry(entries: Seq<FileEntry>, i: int)
    requires
        all_distinct(entries),
        0 <= i < entries.len(),
    ensures
        entries_view(entries).contains_key(entries[i].name@),
        entries_view(entries)[entries[i].name@] == entries[i].lines@,
{
    let name = entries[i].name@;
    assert(has_entry(entries, name));
    let j = entry_index(entries, name);
    assert(0 <= j < entries.len() && entries[j].name@ == name);
    assert(j == i) by {
        if j < i {
            assert(entries[j].name@ != entries[i].name@);
        } else if i < j {
            assert(entries[i].name@ != entries[j].name@);
        }
    }
}

/// Replacing or adding the entry of one file.
proof fn lemma_put(before: Seq<FileEntry>, after: Seq<FileEntry>, i: int)
    requires
        all_distinct(before),
        0 <= i < after.len(),
        after.len() == before.len() && after[i].name@ == before[i].name@ || after.len()
            == before.len() + 1 && i == before.len() && !has_entry(before, after[i].name@),
        forall|j: int| 0 <= j < before.len() && j != i ==> before[j] == #[trigger] after[j],
    ensures
        all_distinct(after),
        entries_view(after) == entries_view(before).insert(after[i].name@, after[i].lines@),
{
    let name = after[i].name@;
    assert forall|j: int, k: int| 0 <= j < k < after.len() implies #[trigger] after[j].name@
        != #[trigger] after[k].name@ by {
        if k < before.len() {
            assert(before[j].name@ != before[k].name@);
        } else {
            assert(before[j].name@ == after[j].name@);
        }
    }
    let v = entries_view(before).insert(name, after[i].lines@);
    assert forall|n: Seq<char>| entries_view(after).contains_key(n) == v.contains_key(n) by {
        if has_entry(after, n) {
            let j = entry_index(after, n);
            if j != i {
                assert(before[j].name@ == n);
            }
        }
        if has_entry(before, n) {
            let j = entry_index(before, n);
            assert(after[j].name@ == n);
        }
    }
    assert forall|n: Seq<char>| entries_view(after).contains_key(n) implies entries_view(after)[n]
        == v[n] by {
        let j = entry_index(after, n);
        lemma_entry(after, j);
        if j != i {
            assert(after[j].name@ != name) by {
                if j < i {
                    assert(after[j].name@ != after[i].name@);
                } else {
                    assert(after[i].name@ != after[j].name@);
                }
            }
            lemma_entry(before, j);
        }
    }
    assert(entries_view(after) =~= v);
}

impl View for FileCosts {
    type V = Map<Seq<char>, Map<u64, LineCost>>;

    closed spec fn view(&self) -> Map<Seq<char>, Map<u64, LineCost>> {
        entries_view(self.entries@)
    }
}

impl FileCosts {
    /// No file occurs twice.
    #[verifier::type_invariant]
    spec fn distinct(self) -> bool {
        all_distinct(self.entries@)
    }

    /// No costs at all.
    pub fn new() -> (r: FileCosts)
        ensures
            r@ == Map::<Seq<char>, Map<u64, LineCost>>::empty(),
    {
        let r = FileCosts { entries: Vec::new() };
        assert(r@ =~= Map::<Seq<char>, Map<u64, LineCost>>::empty());
        r
    }

    /// The costs of the lines of the file `name`.
    pub fn get(&self, name: &str) -> (r: Option<&BTreeMap<u64, LineCost>>)
        ensures
            match r {
                Some(lines) => self@.contains_key(name@) && lines@ == self@[name@],
                None => !self@.contains_key(name@),
            },
    {
        proof {
            use_type_invariant(self);
        }
        let mut i: usize = 0;
        while i < self.entries.len()
            invariant
                i <= self.entries.len(),
                self.distinct(),
                forall|j: int| 0 <= j < i ==> #[trigger] self.entries@[j].name@ != name@,
            decreases self.entries.len() - i,
        {
            if same_text(self.entries[i].name.as_str(), name) {
                proof {
                    lemma_entry(self.entries@, i as int);
                }
                return Some(&self.entries[i].lines);
            }
            i = i + 1;
        }
        None
    }

    /// The file names, in the order in which they were stored.
    pub closed spec fn names(self) -> Seq<Seq<char>> {
        self.entries@.map_values(|e: FileEntry| e.name@)
    }

    /// The number of files.
    pub fn len(&self) -> (r: usize)
        ensures
            r == self.names().len(),
            self.names().no_duplicates(),
            forall|name: Seq<char>| self@.contains_key(name) <==> self.names().contains(name),
    {
        proof {
            use_type_invariant(self);
            assert forall|name: Seq<char>|
                self@.contains_key(name) <==> self.names().contains(name) by {
                if self@.contains_key(name) {
                    let i = entry_index(self.entries@, name);
                    assert(self.names()[i] == name);
                }
                if self.names().contains(name) {
                    let i = choose|i: int| 0 <= i < self.names().len() && self.names()[i] == name;
                    assert(self.entries@[i].name@ == name);
                }
            }
            assert forall|i: int, j: int|
                0 <= i < self.names().len() && 0 <= j < self.names().len() && i
                    != j implies self.names()[i] != self.names()[j] by {
                if i < j {
                    assert(self.entries@[i].name@ != self.entries@[j].name@);
                } else {
                    assert(self.entries@[j].name@ != self.entries@[i].name@);
                }
            }
        }
        self.entries.len()
    }

    /// Whether there are no costs at all.
    pub fn is_empty(&self) -> (r: bool)
        ensures
            r == (self@ == Map::<Seq<char>, Map<u64, LineCost>>::empty()),
    {
        let n: usize = self.len();
        proof {
            if n == 0 {
                assert(self@ =~= Map::<Seq<char>, Map<u64, LineCost>>::empty());
            } else {
                assert(self.names().contains(self.names()[0]));
                assert(self@.contains_key(self.names()[0]));
            }
        }
        n == 0
    }

    /// Whether the file `name` has costs.
    pub fn contains_key(&self, name: &str) -> (r: bool)
        ensures
            r == self@.contains_key(name@),
    {
        self.get(name).is_some()
    }

    /// The name and the costs of a file.
    pub fn entry(&self, i: usize) -> (r: (&str, &BTreeMap<u64, LineCost>))
        requires
            i < self.names().len(),
        ensures
            r.0@ == self.names()[i as int],
            self@.contains_key(r.0@),
            r.1@ == self@[r.0@],
    {
        proof {
            use_type_invariant(self);
            lemma_entry(self.entries@, i as int);
        }
        (self.entries[i].name.as_str(), &self.entries[i].lines)
    }

    /// Adds a file without any costs.
    pub fn open(&mut self, name: String)
        requires
            !old(self)@.contains_key(name@),
        ensures
            final(self)@ == old(self)@.insert(name@, Map::empty()),
            final(self).names() == old(self).names().push(name@),
    {
        proof {
            use_type_invariant(&*self);
        }
        let ghost before = self.entries@;
        let mut entries: Vec<FileEntry> = Vec::new();
        std::mem::swap(&mut entries, &mut self.entries);
        entries.push(FileEntry { name, lines: BTreeMap::new() });
        proof {
            lemma_put(before, entries@, before.len() as int);
        }
        self.entries = entries;
        assert(self.names() =~= old(self).names().push(name@));
    }

    /// Adds one more value at a line of a file; nothing where it does not fit.
    pub fn increase(&mut self, i: usize, line: u64, value: i64, leaf: bool) -> (r: bool)
        requires
            i < old(self).names().len(),
        ensures
            final(self).names() == old(self).names(),
            ({
                let name = old(self).names()[i as int];
                let lines = old(self)@[name];
                match increased(cost_at(lines, line), value, leaf) {
                    Some(cost) => r && final(self)@ == old(self)@.insert(
                        name,
                        lines.insert(line, cost),
                    ),
                    None => !r && final(self)@ == old(self)@,
                }
            }),
    {
        proof {
            use_type_invariant(&*self);
            lemma_entry(self.entries@, i as int);
        }
        let cost: LineCost = match self.entries[i].lines.get(&line) {
            Some(c) => *c,
            None => LineCost { flat: 0, cumulative: 0 },
        };
        match cost.increase(value, leaf) {
            Some(next) => {
                let ghost before = self.entries@;
                let mut entries: Vec<FileEntry> = Vec::new();
                std::mem::swap(&mut entries, &mut self.entries);
                entries[i].lines.insert(line, next);
                proof {
                    lemma_put(before, entries@, i as int);
                }
                self.entries = entries;
                assert(self.names() =~= old(self).names());
                true
            },
            None => false,
        }
    }

    /// Stores the costs of a file, in place of those that it had.
    pub fn insert(&mut self, name: String, lines: BTreeMap<u64, LineCost>)
        ensures
            final(self)@ == old(self)@.insert(name@, lines@),
    {
        proof {
            use_type_invariant(&*self);
        }
        let ghost before = self.entries@;
        let mut entries: Vec<FileEntry> = Vec::new();
        std::mem::swap(&mut entries, &mut self.entries);
        let mut i: usize = 0;
        while i < entries.len() && !same_text(entries[i].name.as_str(), name.as_str())
            invariant
                i <= entries.len(),
                entries@ == before,
                forall|j: int| 0 <= j < i ==> #[trigger] entries@[j].name@ != name@,
            decreases entries.len() - i,
        {
            i = i + 1;
        }
        if i < entries.len() {
            entries.set(i, FileEntry { name, lines });
        } else {
            entries.push(FileEntry { name, lines });
        }
        proof {
            lemma_put(before, entries@, i as int);
        }
        self.entries = entries;
    }
}

impl Clone for FileCosts {
    fn clone(&self) -> (r: FileCosts)
        ensures
            r@ == self@,
    {
        proof {
            use_type_invariant(self);
        }
        let mut entries: Vec<FileEntry> = Vec::new();
        let mut i: usize = 0;
        while i < self.entries.len()
            invariant
                i <= self.entries.len(),
                entries@.len() == i,
                forall|j: int|
                    0 <= j < i ==> (#[trigger] entries@[j]).name@ == self.entries@[j].name@
                        && entries@[j].lines@ == self.entries@[j].lines@,
            decreases self.entries.len() - i,
        {
            let e: &FileEntry = &self.entries[i];
            entries.push(FileEntry { name: e.name.clone(), lines: e.lines.clone() });
            i = i + 1;
        }
        proof {
            assert forall|j: int, k: int| 0 <= j < k < entries@.len() implies #[trigger] entries@[j].name@
                != #[trigger] entries@[k].name@ by {
                assert(self.entries@[j].name@ != self.entries@[k].name@);
            }
            assert forall|n: Seq<char>| has_entry(entries@, n) == has_entry(self.entries@, n) by {
                if has_entry(entries@, n) {
                    let j = entry_index(entries@, n);
                    assert(self.entries@[j].name@ == n);
                }
                if has_entry(self.entries@, n) {
                    let j = entry_index(self.entries@, n);
                    assert(entries@[j].name@ == n);
                }
            }
            assert forall|n: Seq<char>| has_entry(entries@, n) implies entries_view(entries@)[n]
                == entries_view(self.entries@)[n] by {
                let j = entry_index(entries@, n);
                lemma_entry(entries@, j);
                lemma_entry(self.entries@, j);
            }
            assert(entries_view(entries@) =~= entries_view(self.entries@));
        }
        FileCosts { entries }
    }
}

/// The lines are those of the map, in rising order.
pub open spec fn in_order(list: Seq<(u64, LineCost)>, lines: Map<u64, LineCost>) -> bool {
    &&& forall|i: int, j: int| 0 <= i < j < list.len() ==> (#[trigger] list[i]).0 < (
    #[trigger] list[j]).0
    &&& forall|i: int|
        0 <= i < list.len() ==> lines.contains_key((#[trigger] list[i]).0) && lines[list[i].0]
            == list[i].1
    &&& forall|line: u64| #[trigger]
        lines.contains_key(line) ==> exists|i: int|
            0 <= i < list.len() && (#[trigger] list[i]).0 == line
}

/// The lines of a file with their costs, in rising order.
pub fn ordered_lines(lines: &BTreeMap<u64, LineCost>) -> (r: Vec<(u64, LineCost)>)
    ensures
        in_order(r@, lines@),
{
    let mut r: Vec<(u64, LineCost)> = Vec::new();
    let iter = lines.iter();
    let ghost entries = iter.remaining();
    let ghost keys = entries.map_values(|kv: (&u64, &LineCost)| *kv.0);
    for entry in it: iter
        invariant
            it.seq() == entries,
            r@.len() == it.index(),
            forall|i: int|
                0 <= i < it.index() ==> (#[trigger] r@[i]).0 == *entries[i].0 && r@[i].1
                    == *entries[i].1,
    {
        r.push((*entry.0, *entry.1));
    }
    proof {
        assert(increasing_seq(keys));
        assert forall|i: int, j: int| 0 <= i < j < r@.len() implies (#[trigger] r@[i]).0 < (
        #[trigger] r@[j]).0 by {
            assert(keys[i].cmp_spec(&keys[j]) is Less);
        }
        assert forall|i: int| 0 <= i < r@.len() implies lines@.contains_key((#[trigger] r@[i]).0)
            && lines@[r@[i].0] == r@[i].1 by {
            assert(lines@.contains_key(*entries[i].0));
        }
        assert forall|line: u64| #[trigger] lines@.contains_key(line) implies exists|i: int|
            0 <= i < r@.len() && (#[trigger] r@[i]).0 == line by {
            assert(entries.contains((&line, &lines@[line])));
            let i = choose|i: int| 0 <= i < entries.len() && entries[i] == (&line, &lines@[line]);
            assert(r@[i].0 == line);
        }
    }
    r
}

/// One more value adds to the cumulative cost, and to the flat one where the line was the
/// leaf; it is refused exactly where a sum leaves 64 bits.
pub proof fn lemma_increased(cost: LineCost, value: i64)
    ensures
        increased(cost, value, false) is Some <==> -0x8000_0000_0000_0000 <= cost.cumulative + value
            <= 0x7fff_ffff_ffff_ffff,
        increased(cost, value, false) matches Some(next) ==> next.flat == cost.flat
            && next.cumulative == cost.cumulative + value,
        increased(cost, value, true) is Some <==> -0x8000_0000_0000_0000 <= cost.cumulative + value
            <= 0x7fff_ffff_ffff_ffff && -0x8000_0000_0000_0000 <= cost.flat + value
            <= 0x7fff_ffff_ffff_ffff,
        increased(cost, value, true) matches Some(next) ==> next.flat == cost.flat + value
            && next.cumulative == cost.cumulative + value,
{
}

/// A line that has no cost yet has none of either kind.
pub proof fn lemma_cost_at(lines: Map<u64, LineCost>, line: u64, other: u64, cost: LineCost)
    ensures
        cost_at(lines.insert(line, cost), line) == cost,
        other != line ==> cost_at(lines.insert(line, cost), other) == cost_at(lines, other),
        !lines.contains_key(line) ==> cost_at(lines, line).flat == 0 && cost_at(
            lines,
            line,
        ).cumulative == 0,
        lines.contains_key(line) ==> cost_at(lines, line) == lines[line],
{
}

/// The ordered lines of a file are as many as it has, each once, with its own cost, and the
/// first is the least.
pub proof fn lemma_in_order(list: Seq<(u64, LineCost)>, lines: Map<u64, LineCost>, line: u64)
    requires
        in_order(list, lines),
    ensures
        lines.contains_key(line) <==> list.contains((line, lines[line])),
        forall|i: int, j: int|
            0 <= i < list.len() && 0 <= j < list.len() && (#[trigger] list[i]).0 == (
            #[trigger] list[j]).0 ==> i == j,
        lines.contains_key(line) ==> list.len() > 0 && list[0].0 <= line && line
            <= list.last().0,
{
    if lines.contains_key(line) {
        let i = choose|i: int| 0 <= i < list.len() && (#[trigger] list[i]).0 == line;
        assert(list[i] == (line, lines[line]));
        assert(list[0].0 <= list[i].0);
        assert(list[i].0 <= list[list.len() - 1].0);
    }
    if list.contains((line, lines[line])) {
        let i = choose|i: int| 0 <= i < list.len() && list[i] == (line, lines[line]);
        assert(lines.contains_key(list[i].0));
    }
    assert forall|i: int, j: int|
        0 <= i < list.len() && 0 <= j < list.len() && (#[trigger] list[i]).0 == (
        #[trigger] list[j]).0 implies i == j by {
        if i < j {
            assert(list[i].0 < list[j].0);
        } else if j < i {
            assert(list[j].0 < list[i].0);
        }
    }
}

} // verus!
