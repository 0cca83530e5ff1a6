//! The search for profile files: patterns, and the order of what they find.

use crate::rules::components_by;
use crate::rules::join_paths_by;
use crate::rules::joined_by;
use crate::rules::split_components_by;
use crate::rules::PathRules;
use crate::text::find_from;
use crate::text::first_at;
use crate::text::joined;
use crate::text::lemma_pieces_joined;
use crate::text::pieces;
use crate::text::same_text;
use crate::text::split_text;
use crate::text::text_between;
use crate::text::to_chars;
use crate::watch::FileModel;
use crate::watch::FileStat;
use vstd::prelude::*;

verus! {

/// The patterns that a pattern with one group of alternatives in braces stands for; the
/// pattern itself where it has no such group.
pub open spec fn expanded(pattern: Seq<char>) -> Seq<Seq<char>> {
    match first_at(pattern, '{', 0) {
        None => seq![pattern],
        Some(open) => match first_at(pattern, '}', open) {
            None => seq![pattern],
            Some(close) => pieces(pattern.subrange(open + 1, close), ',').map_values(
                |choice: Seq<char>| pattern.take(open) + choice + pattern.skip(close + 1),
            ),
        },
    }
}

/// Expand simple brace patterns like `*.{pprof,prof}` into multiple patterns.
/// The `glob` crate doesn't support `{a,b}` syntax, so we expand it manually.
/// Only handles a single brace group. Returns the pattern itself if no braces found.
pub fn expand_braces(pattern: &str) -> (r: Vec<String>)
    ensures
        r.deep_view() == expanded(pattern@),
{
    let chars: Vec<char> = to_chars(pattern);
    let mut r: Vec<String> = Vec::new();
    let open: usize = match find_from(&chars, '{', 0) {
        Some(open) => open,
        None => {
            r.push(pattern.to_string());
            assert(r.deep_view() =~= expanded(pattern@));
            return r;
        },
    };
    let close: usize = match find_from(&chars, '}', open) {
        Some(close) => close,
        None => {
            r.push(pattern.to_string());
            assert(r.deep_view() =~= expanded(pattern@));
            return r;
        },
    };
    assert(open < close) by {
        assert(chars@[open as int] == '{');
        assert(chars@[close as int] == '}');
    }
    let count: usize = chars.len();
    assert(close < count);
    let prefix: String = text_between(&chars, 0, open);
    let suffix: String = text_between(&chars, close + 1, count);
    let choices: Vec<String> = split_text(text_between(&chars, open + 1, close).as_str(), ',');
    let ghost parts = choices.deep_view();
    proof {
        assert(prefix@ =~= pattern@.take(open as int));
        assert(suffix@ =~= pattern@.skip(close + 1));
    }
    let mut i: usize = 0;
    while i < choices.len()
        invariant
            i <= choices@.len(),
            parts == choices.deep_view(),
            r@.len() == i,
            forall|k: int| 0 <= k < i ==> (#[trigger] r@[k])@ == prefix@ + parts[k] + suffix@,
        decreases choices.len() - i,
    {
        let mut text: String = prefix.as_str().to_string();
        text.push_str(choices[i].as_str());
        text.push_str(suffix.as_str());
        r.push(text);
        i += 1;
    }
    assert(r.deep_view() =~= expanded(pattern@));
    r
}

/// The directory to search: a configured path, seen from the workspace.
pub fn search_directory(workspace_root: &str, search_path: &str, rules: PathRules) -> (r: String)
    ensures
        r@ == joined_by(workspace_root@, search_path@, rules),
{
    join_paths_by(workspace_root, search_path, rules)
}

/// The patterns to search for in a directory.
pub fn search_patterns(directory: &str, profile_glob: &str, rules: PathRules) -> (r: Vec<String>)
    ensures
        r.deep_view() == expanded(joined_by(directory@, profile_glob@, rules)),
{
    expand_braces(join_paths_by(directory, profile_glob, rules).as_str())
}

/// `a` comes before `b` in the order of their characters.
pub open spec fn text_before(a: Seq<char>, b: Seq<char>) -> bool
    decreases b.len(),
{
    if b.len() == 0 {
        false
    } else if a.len() == 0 {
        true
    } else if a[0] == b[0] {
        text_before(a.skip(1), b.skip(1))
    } else {
        a[0] < b[0]
    }
}

/// The rank of a component: a prefix, the root, the current directory, the parent
/// directory, names.
pub open spec fn component_rank(component: Seq<char>) -> int {
    if component == "/"@ {
        1
    } else if component.len() > 0 && component[0] == '/' {
        0
    } else if component == "."@ {
        2
    } else if component == ".."@ {
        3
    } else {
        4
    }
}

pub open spec fn component_before(a: Seq<char>, b: Seq<char>) -> bool {
    component_rank(a) < component_rank(b) || (component_rank(a) == component_rank(b) && text_before(
        a,
        b,
    ))
}

/// `a` comes before `b`, component by component.
pub open spec fn components_before(a: Seq<Seq<char>>, b: Seq<Seq<char>>) -> bool
    decreases b.len(),
{
    if b.len() == 0 {
        false
    } else if a.len() == 0 {
        true
    } else if a[0] == b[0] {
        components_before(a.skip(1), b.skip(1))
    } else {
        component_before(a[0], b[0])
    }
}

/// `a` comes before `b` in the order of paths.
pub open spec fn path_before(a: Seq<char>, b: Seq<char>, rules: PathRules) -> bool {
    components_before(components_by(a, rules), components_by(b, rules))
}

/// Paths of the same file, as far as their text shows it.
pub open spec fn same_path(a: Seq<char>, b: Seq<char>, rules: PathRules) -> bool {
    components_by(a, rules) == components_by(b, rules)
}

proof fn lemma_text_trichotomy(a: Seq<char>, b: Seq<char>)
    ensures
        text_before(a, b) || text_before(b, a) || a == b,
    decreases b.len(),
{
    if a.len() > 0 && b.len() > 0 && a[0] == b[0] {
        lemma_text_trichotomy(a.skip(1), b.skip(1));
        if a.skip(1) == b.skip(1) {
            assert(a =~= seq![a[0]] + a.skip(1));
            assert(b =~= seq![b[0]] + b.skip(1));
        }
    } else if a.len() == 0 && b.len() == 0 {
        assert(a =~= b);
    }
}

proof fn lemma_text_transitive(a: Seq<char>, b: Seq<char>, c: Seq<char>)
    requires
        text_before(a, b),
        text_before(b, c),
    ensures
        text_before(a, c),
    decreases c.len(),
{
    if a.len() > 0 && a[0] == b[0] && b[0] == c[0] {
        lemma_text_transitive(a.skip(1), b.skip(1), c.skip(1));
    }
}

proof fn lemma_text_irreflexive(a: Seq<char>)
    ensures
        !text_before(a, a),
    decreases a.len(),
{
    if a.len() > 0 {
        lemma_text_irreflexive(a.skip(1));
    }
}

proof fn lemma_components_trichotomy(a: Seq<Seq<char>>, b: Seq<Seq<char>>)
    ensures
        components_before(a, b) || components_before(b, a) || a == b,
    decreases b.len(),
{
    if a.len() > 0 && b.len() > 0 {
        if a[0] == b[0] {
            lemma_components_trichotomy(a.skip(1), b.skip(1));
            if a.skip(1) == b.skip(1) {
                assert(a =~= seq![a[0]] + a.skip(1));
                assert(b =~= seq![b[0]] + b.skip(1));
            }
        } else {
            lemma_text_trichotomy(a[0], b[0]);
        }
    } else if a.len() == 0 && b.len() == 0 {
        assert(a =~= b);
    }
}

proof fn lemma_component_transitive(a: Seq<char>, b: Seq<char>, c: Seq<char>)
    requires
        component_before(a, b),
        component_before(b, c),
    ensures
        component_before(a, c),
        a != c,
{
    if component_rank(a) == component_rank(b) && component_rank(b) == component_rank(c) {
        lemma_text_transitive(a, b, c);
        lemma_text_irreflexive(a);
    }
}

proof fn lemma_components_transitive(a: Seq<Seq<char>>, b: Seq<Seq<char>>, c: Seq<Seq<char>>)
    requires
        components_before(a, b),
        components_before(b, c),
    ensures
        components_before(a, c),
    decreases c.len(),
{
    if a.len() > 0 {
        if a[0] == b[0] && b[0] == c[0] {
            lemma_components_transitive(a.skip(1), b.skip(1), c.skip(1));
        } else if a[0] != b[0] && b[0] != c[0] {
            lemma_component_transitive(a[0], b[0], c[0]);
        }
    }
}

proof fn lemma_components_irreflexive(a: Seq<Seq<char>>)
    ensures
        !components_before(a, a),
    decreases a.len(),
{
    if a.len() > 0 {
        lemma_components_irreflexive(a.skip(1));
    }
}

/// Paths are in a total order in which equal ones are those with equal components.
pub proof fn lemma_path_order(a: Seq<char>, b: Seq<char>, c: Seq<char>, rules: PathRules)
    ensures
        path_before(a, b, rules) || path_before(b, a, rules) || same_path(a, b, rules),
        path_before(a, b, rules) && path_before(b, c, rules) ==> path_before(a, c, rules),
        same_path(a, b, rules) ==> !path_before(a, b, rules),
{
    lemma_components_trichotomy(components_by(a, rules), components_by(b, rules));
    if path_before(a, b, rules) && path_before(b, c, rules) {
        lemma_components_transitive(components_by(a, rules), components_by(b, rules), components_by(c, rules));
    }
    lemma_components_irreflexive(components_by(a, rules));
}

fn compare_text(a: &str, b: &str) -> (r: bool)
    ensures
        r == text_before(a@, b@),
{
    let x: Vec<char> = to_chars(a);
    let y: Vec<char> = to_chars(b);
    let mut i: usize = 0;
    proof {
        assert(x@.skip(0) =~= x@);
        assert(y@.skip(0) =~= y@);
    }
    while i < x.len() && i < y.len() && x[i] == y[i]
        invariant
            i <= x@.len(),
            i <= y@.len(),
            text_before(a@, b@) == text_before(x@.skip(i as int), y@.skip(i as int)),
        decreases x.len() - i,
    {
        assert(x@.skip(i as int).skip(1) =~= x@.skip(i + 1));
        assert(y@.skip(i as int).skip(1) =~= y@.skip(i + 1));
        i += 1;
    }
    if i >= y.len() {
        false
    } else if i >= x.len() {
        true
    } else {
        x[i] < y[i]
    }
}

fn rank_of(component: &str) -> (r: u8)
    ensures
        r == component_rank(component@),
{
    let chars: Vec<char> = to_chars(component);
    if same_text(component, "/") {
        1
    } else if chars.len() > 0 && chars[0] == '/' {
        0
    } else if same_text(component, ".") {
        2
    } else if same_text(component, "..") {
        3
    } else {
        4
    }
}

/// Whether one list of components comes before another.
fn list_before(x: &Vec<String>, y: &Vec<String>) -> (r: bool)
    ensures
        r == components_before(x.deep_view(), y.deep_view()),
{
    let ghost a = x.deep_view();
    let ghost b = y.deep_view();
    let mut i: usize = 0;
    proof {
        assert(a.skip(0) =~= a);
        assert(b.skip(0) =~= b);
    }
    while i < x.len() && i < y.len() && same_text(x[i].as_str(), y[i].as_str())
        invariant
            a == x.deep_view(),
            b == y.deep_view(),
            i <= x@.len(),
            i <= y@.len(),
            components_before(a, b) == components_before(a.skip(i as int), b.skip(i as int)),
        decreases x.len() - i,
    {
        assert(a.skip(i as int)[0] == x@[i as int]@);
        assert(b.skip(i as int)[0] == y@[i as int]@);
        assert(a.skip(i as int).skip(1) =~= a.skip(i + 1));
        assert(b.skip(i as int).skip(1) =~= b.skip(i + 1));
        i += 1;
    }
    if i >= y.len() {
        return false;
    }
    if i >= x.len() {
        return true;
    }
    proof {
        assert(a.skip(i as int)[0] == x@[i as int]@);
        assert(b.skip(i as int)[0] == y@[i as int]@);
    }
    let p: u8 = rank_of(x[i].as_str());
    let q: u8 = rank_of(y[i].as_str());
    p < q || p == q && compare_text(x[i].as_str(), y[i].as_str())
}

/// The files are in the order of paths, and none occurs twice.
pub open spec fn is_arranged(files: Seq<Seq<char>>, rules: PathRules) -> bool {
    forall|i: int, j: int|
        0 <= i < j < files.len() ==> path_before(#[trigger] files[i], #[trigger] files[j], rules)
}

/// `file` is the first of the found ones with its components.
pub open spec fn is_first_found(found: Seq<Seq<char>>, file: Seq<char>, rules: PathRules) -> bool {
    exists|i: int|
        0 <= i < found.len() && #[trigger] found[i] == file && forall|k: int|
            0 <= k < i ==> !same_path(#[trigger] found[k], file, rules)
}

/// Puts the files in the order of paths; of those with the same components only the
/// first stays.
pub fn arrange_files(found: &Vec<String>, rules: PathRules) -> (r: Vec<String>)
    ensures
        is_arranged(r.deep_view(), rules),
        forall|file: Seq<char>| #[trigger]
            r.deep_view().contains(file) <==> is_first_found(found.deep_view(), file, rules),
{
    let ghost all = found.deep_view();
    let mut r: Vec<String> = Vec::new();
    let mut n: usize = 0;
    assert(r.deep_view() =~= seq![]);
    while n < found.len()
        invariant
            n <= found@.len(),
            all == found.deep_view(),
            is_arranged(r.deep_view(), rules),
            forall|file: Seq<char>| #[trigger]
                r.deep_view().contains(file) <==> is_first_found(all.take(n as int), file, rules),
        decreases found.len() - n,
    {
        let ghost before = r.deep_view();
        let ghost had = all.take(n as int);
        let ghost has = all.take(n + 1);
        let ghost file = all[n as int];
        let parts: Vec<String> = split_components_by(found[n].as_str(), rules);
        let mut pos: usize = 0;
        let mut same: bool = false;
        while pos < r.len() && !same && !list_before(
            &parts,
            &split_components_by(r[pos].as_str(), rules),
        )
            invariant
                before == r.deep_view(),
                pos <= before.len(),
                parts.deep_view() == components_by(file, rules),
                is_arranged(before, rules),
                same ==> exists|k: int| 0 <= k < before.len() && same_path(#[trigger] before[k], file, rules),
                !same ==> forall|k: int| 0 <= k < pos ==> path_before(#[trigger] before[k], file, rules),
            decreases
                before.len() - pos + if same {
                    0int
                } else {
                    1int
                },
        {
            let ghost here = before[pos as int];
            assert(here == r@[pos as int]@);
            if list_before(&split_components_by(r[pos].as_str(), rules), &parts) {
                pos += 1;
            } else {
                proof {
                    lemma_path_order(here, file, file, rules);
                }
                same = true;
            }
        }
        proof {
            assert(has =~= had.push(file));
            assert(before.len() == r@.len());
            if !same && pos < before.len() {
                assert(before[pos as int] == r@[pos as int]@);
            }
        }
        if !same {
            r.insert(pos, found[n].as_str().to_string());
        }
        proof {
            let after = r.deep_view();
            if same {
                assert(after == before);
                let k = choose|k: int| 0 <= k < before.len() && same_path(#[trigger] before[k], file, rules);
                assert(before.contains(before[k]));
                lemma_found_twice(had, file, before[k], rules);
            } else {
                assert(after =~= before.insert(pos as int, file));
                lemma_arranged(before, file, pos as int, rules);
                lemma_found_new(had, before, file, pos as int, rules);
            }
        }
        n += 1;
    }
    assert(all.take(n as int) =~= all);
    r
}

/// A file between those before and those after it.
proof fn lemma_arranged(files: Seq<Seq<char>>, file: Seq<char>, pos: int, rules: PathRules)
    requires
        is_arranged(files, rules),
        0 <= pos <= files.len(),
        forall|k: int| 0 <= k < pos ==> path_before(#[trigger] files[k], file, rules),
        pos < files.len() ==> path_before(file, files[pos], rules),
    ensures
        is_arranged(files.insert(pos, file), rules),
        forall|k: int| 0 <= k < files.len() ==> !same_path(#[trigger] files[k], file, rules),
{
    let next = files.insert(pos, file);
    assert forall|k: int| pos <= k < files.len() implies path_before(file, #[trigger] files[k], rules) by {
        if k > pos {
            lemma_path_order(file, files[pos], files[k], rules);
        }
    }
    assert forall|i: int, j: int| 0 <= i < j < next.len() implies path_before(
        #[trigger] next[i],
        #[trigger] next[j],
        rules,
    ) by {
        if i < pos {
            assert(next[i] == files[i]);
        } else if i > pos {
            assert(next[i] == files[i - 1]);
        }
        if j < pos {
            assert(next[j] == files[j]);
        } else if j > pos {
            assert(next[j] == files[j - 1]);
        }
    }
    assert forall|k: int| 0 <= k < files.len() implies !same_path(#[trigger] files[k], file, rules) by {
        lemma_path_order(files[k], file, file, rules);
        lemma_path_order(file, files[k], file, rules);
    }
}

/// A file that was found before adds nothing.
proof fn lemma_found_twice(had: Seq<Seq<char>>, file: Seq<char>, other: Seq<char>, rules: PathRules)
    requires
        is_first_found(had, other, rules),
        same_path(other, file, rules),
    ensures
        forall|f: Seq<char>| is_first_found(had.push(file), f, rules) <==> is_first_found(had, f, rules),
{
    let has = had.push(file);
    let at = choose|i: int|
        0 <= i < had.len() && #[trigger] had[i] == other && forall|k: int|
            0 <= k < i ==> !same_path(#[trigger] had[k], other, rules);
    assert forall|f: Seq<char>| is_first_found(has, f, rules) <==> is_first_found(had, f, rules) by {
        if is_first_found(has, f, rules) {
            let i = choose|i: int|
                0 <= i < has.len() && #[trigger] has[i] == f && forall|k: int|
                    0 <= k < i ==> !same_path(#[trigger] has[k], f, rules);
            if i < had.len() {
                assert(had[i] == f);
                assert forall|k: int| 0 <= k < i implies !same_path(#[trigger] had[k], f, rules) by {
                    assert(has[k] == had[k]);
                }
            } else {
                assert(has[at] == other);
                assert(!same_path(has[at], f, rules));
            }
        }
        if is_first_found(had, f, rules) {
            let i = choose|i: int|
                0 <= i < had.len() && #[trigger] had[i] == f && forall|k: int|
                    0 <= k < i ==> !same_path(#[trigger] had[k], f, rules);
            assert(has[i] == f);
            assert forall|k: int| 0 <= k < i implies !same_path(#[trigger] has[k], f, rules) by {
                assert(has[k] == had[k]);
            }
        }
    }
}

/// Every found file has a first one with its components.
proof fn lemma_first_found(had: Seq<Seq<char>>, i: int, rules: PathRules)
    requires
        0 <= i < had.len(),
    ensures
        exists|f: Seq<char>| #[trigger] is_first_found(had, f, rules) && same_path(f, had[i], rules),
    decreases i,
{
    if forall|k: int| 0 <= k < i ==> !same_path(#[trigger] had[k], had[i], rules) {
        assert(is_first_found(had, had[i], rules));
    } else {
        let k = choose|k: int| 0 <= k < i && same_path(#[trigger] had[k], had[i], rules);
        lemma_first_found(had, k, rules);
    }
}

/// A file that was not found before is added.
proof fn lemma_found_new(had: Seq<Seq<char>>, files: Seq<Seq<char>>, file: Seq<char>, pos: int, rules: PathRules)
    requires
        forall|f: Seq<char>| #[trigger] files.contains(f) <==> is_first_found(had, f, rules),
        forall|k: int| 0 <= k < files.len() ==> !same_path(#[trigger] files[k], file, rules),
        0 <= pos <= files.len(),
    ensures
        forall|f: Seq<char>| #[trigger]
            files.insert(pos, file).contains(f) <==> is_first_found(had.push(file), f, rules),
{
    let has = had.push(file);
    let next = files.insert(pos, file);
    assert forall|k: int| 0 <= k < had.len() implies !same_path(#[trigger] had[k], file, rules) by {
        lemma_first_found(had, k, rules);
        let f = choose|f: Seq<char>| #[trigger] is_first_found(had, f, rules) && same_path(f, had[k], rules);
        assert(files.contains(f));
        let m = choose|m: int| 0 <= m < files.len() && files[m] == f;
        assert(!same_path(files[m], file, rules));
    }
    assert(is_first_found(has, file, rules)) by {
        assert(has[had.len() as int] == file);
        assert forall|k: int| 0 <= k < had.len() implies !same_path(#[trigger] has[k], file, rules) by {
            assert(has[k] == had[k]);
        }
    }
    assert forall|f: Seq<char>| #[trigger] next.contains(f) <==> is_first_found(has, f, rules) by {
        if next.contains(f) {
            let m = choose|m: int| 0 <= m < next.len() && next[m] == f;
            if m != pos {
                let at = if m < pos {
                    m
                } else {
                    m - 1
                };
                assert(files[at] == f);
                assert(files.contains(f));
                let i = choose|i: int|
                    0 <= i < had.len() && #[trigger] had[i] == f && forall|k: int|
                        0 <= k < i ==> !same_path(#[trigger] had[k], f, rules);
                assert(has[i] == f);
                assert forall|k: int| 0 <= k < i implies !same_path(#[trigger] has[k], f, rules) by {
                    assert(has[k] == had[k]);
                }
            }
        }
        if is_first_found(has, f, rules) {
            let i = choose|i: int|
                0 <= i < has.len() && #[trigger] has[i] == f && forall|k: int|
                    0 <= k < i ==> !same_path(#[trigger] has[k], f, rules);
            if i < had.len() {
                assert(had[i] == f);
                assert forall|k: int| 0 <= k < i implies !same_path(#[trigger] had[k], f, rules) by {
                    assert(has[k] == had[k]);
                }
                assert(is_first_found(had, f, rules));
                assert(files.contains(f));
                let m = choose|m: int| 0 <= m < files.len() && files[m] == f;
                if m < pos {
                    assert(next[m] == f);
                } else {
                    assert(next[m + 1] == f);
                }
            } else {
                assert(next[pos] == f);
            }
        }
    }
}

/// The last of the files with the greatest modification time; files without one do not
/// count.
pub open spec fn newest(stats: Seq<FileModel>) -> Option<int>
    decreases stats.len(),
{
    if stats.len() == 0 {
        None
    } else {
        let before = newest(stats.drop_last());
        match (stats.last().mtime, before) {
            (None, _) => before,
            (Some(_), None) => Some(stats.len() - 1),
            (Some(mtime), Some(i)) => if mtime >= stats[i].mtime.unwrap() {
                Some(stats.len() - 1)
            } else {
                before
            },
        }
    }
}

/// The newest file has a time, none is newer, and none after it is as new.
pub proof fn lemma_newest(stats: Seq<FileModel>)
    ensures
        match newest(stats) {
            Some(i) => 0 <= i < stats.len() && stats[i].mtime is Some && (forall|k: int|
                0 <= k < stats.len() && (#[trigger] stats[k]).mtime is Some
                    ==> stats[k].mtime.unwrap() <= stats[i].mtime.unwrap()) && (forall|k: int|
                i < k < stats.len() && (#[trigger] stats[k]).mtime is Some
                    ==> stats[k].mtime.unwrap() < stats[i].mtime.unwrap()),
            None => forall|k: int| 0 <= k < stats.len() ==> (#[trigger] stats[k]).mtime is None,
        },
    decreases stats.len(),
{
    if stats.len() > 0 {
        let rest = stats.drop_last();
        lemma_newest(rest);
        assert forall|k: int| 0 <= k < rest.len() implies rest[k] == #[trigger] stats[k] by {}
        assert(stats.last() == stats[stats.len() - 1]);
        match newest(rest) {
            Some(i) => {
                assert(rest[i] == stats[i]);
            },
            None => {},
        }
    }
}

/// The index of the most recently modified file.
pub fn find_newest(stats: &[FileStat]) -> (r: Option<usize>)
    ensures
        match r {
            Some(i) => newest(stats.deep_view()) == Some(i as int) && i < stats@.len(),
            None => newest(stats.deep_view()) is None,
        },
{
    let ghost all = stats.deep_view();
    let mut best: Option<(usize, i128)> = None;
    let mut n: usize = 0;
    assert(all.take(0) =~= seq![]);
    while n < stats.len()
        invariant
            n <= stats@.len(),
            all == stats.deep_view(),
            match best {
                Some((i, mtime)) => newest(all.take(n as int)) == Some(i as int) && i < n
                    && all[i as int].mtime == Some(mtime),
                None => newest(all.take(n as int)) is None,
            },
        decreases stats.len() - n,
    {
        let ghost t = all.take(n + 1);
        assert(t.drop_last() =~= all.take(n as int));
        assert(t.last() == stats@[n as int].deep_view());
        match (stats[n].mtime, best) {
            (None, _) => {},
            (Some(mtime), None) => {
                best = Some((n, mtime));
            },
            (Some(mtime), Some((i, greatest))) => {
                assert(t[i as int] == all[i as int]);
                if mtime >= greatest {
                    best = Some((n, mtime));
                }
            },
        }
        n += 1;
    }
    assert(all.take(n as int) =~= all);
    match best {
        Some((i, _)) => Some(i),
        None => None,
    }
}

/// A group of alternatives in braces stands for each of them, in their order, between what
/// stands before and behind the group.
pub proof fn lemma_braces(prefix: Seq<char>, choices: Seq<Seq<char>>, suffix: Seq<char>)
    requires
        !prefix.contains('{'),
        choices.len() > 0,
        forall|i: int|
            0 <= i < choices.len() ==> !(#[trigger] choices[i]).contains(',') && !choices[i].contains(
                '}',
            ),
    ensures
        ({
            let pattern = prefix.push('{') + joined(choices, ',').push('}') + suffix;
            &&& expanded(pattern).len() == choices.len()
            &&& forall|i: int|
                0 <= i < choices.len() ==> #[trigger] expanded(pattern)[i] == prefix + choices[i]
                    + suffix
        }),
{
    let body = joined(choices, ',');
    let pattern = prefix.push('{') + body.push('}') + suffix;
    let open = prefix.len() as int;
    let close = open + 1 + body.len();
    lemma_no_close(choices);
    assert forall|k: int| 0 <= k < open implies #[trigger] pattern[k] != '{' by {
        assert(pattern[k] == prefix[k]);
        assert(prefix.contains(prefix[k]));
    }
    lemma_first_at(pattern, '{', 0, open);
    assert forall|k: int| open <= k < close implies #[trigger] pattern[k] != '}' by {
        if k > open {
            assert(pattern[k] == body[k - open - 1]);
            assert(body.contains(body[k - open - 1]));
        }
    }
    lemma_first_at(pattern, '}', open, close);
    assert(pattern.subrange(open + 1, close) =~= body);
    assert(pattern.take(open) =~= prefix);
    assert(pattern.skip(close + 1) =~= suffix);
    lemma_pieces_joined(choices, ',');
}

proof fn lemma_first_at(s: Seq<char>, c: char, from: int, at: int)
    requires
        0 <= from <= at < s.len(),
        s[at] == c,
        forall|k: int| from <= k < at ==> #[trigger] s[k] != c,
    ensures
        first_at(s, c, from) == Some(at),
    decreases at - from,
{
    if from < at {
        lemma_first_at(s, c, from + 1, at);
    }
}

proof fn lemma_none_at(s: Seq<char>, c: char, from: int)
    requires
        0 <= from,
        forall|k: int| from <= k < s.len() ==> #[trigger] s[k] != c,
    ensures
        first_at(s, c, from) is None,
    decreases s.len() - from,
{
    if from < s.len() {
        lemma_none_at(s, c, from + 1);
    }
}

proof fn lemma_no_close(choices: Seq<Seq<char>>)
    requires
        forall|i: int| 0 <= i < choices.len() ==> !(#[trigger] choices[i]).contains('}'),
    ensures
        !joined(choices, ',').contains('}'),
    decreases choices.len(),
{
    let text = joined(choices, ',');
    if choices.len() > 1 {
        let front = choices.drop_last();
        assert forall|i: int| 0 <= i < front.len() implies !(#[trigger] front[i]).contains('}') by {
            assert(front[i] == choices[i]);
        }
        lemma_no_close(front);
        let before = joined(front, ',');
        let last = choices.last();
        assert(last == choices[choices.len() - 1]);
        if text.contains('}') {
            let k = choose|k: int| 0 <= k < text.len() && text[k] == '}';
            if k < before.len() {
                assert(before[k] == '}');
            } else if k > before.len() {
                assert(last[k - before.len() - 1] == '}');
            }
        }
    } else if choices.len() == 1 {
        assert(text == choices[0]);
    }
}

/// A pattern without a whole group stands for itself.
pub proof fn lemma_no_braces(pattern: Seq<char>)
    requires
        !pattern.contains('{') || !pattern.contains('}'),
    ensures
        expanded(pattern) == seq![pattern],
{
    if !pattern.contains('{') {
        assert forall|k: int| 0 <= k < pattern.len() implies #[trigger] pattern[k] != '{' by {
            assert(pattern.contains(pattern[k]));
        }
        lemma_none_at(pattern, '{', 0);
    } else {
        assert forall|k: int| 0 <= k < pattern.len() implies #[trigger] pattern[k] != '}' by {
            assert(pattern.contains(pattern[k]));
        }
        match first_at(pattern, '{', 0) {
            Some(open) => {
                lemma_found_at(pattern, '{', 0);
                lemma_none_at(pattern, '}', open);
            },
            None => {},
        }
    }
}

proof fn lemma_found_at(s: Seq<char>, c: char, from: int)
    ensures
        first_at(s, c, from) matches Some(at) ==> from <= at < s.len() && 0 <= at,
    decreases s.len() - from,
{
    if 0 <= from < s.len() && s[from] != c {
        lemma_found_at(s, c, from + 1);
    }
}

/// Paths come in the order of their first components that differ; names in the order of
/// their first characters that do, and a shorter one before one that it starts.
pub proof fn lemma_order_of_names(dir: Seq<Seq<char>>, a: Seq<char>, b: Seq<char>, k: int)
    requires
        component_rank(a) == component_rank(b),
        0 <= k <= a.len(),
        k < b.len(),
        forall|i: int| 0 <= i < k ==> a[i] == b[i],
        k == a.len() || a[k] < b[k],
    ensures
        text_before(a, b),
        components_before(dir.push(a), dir.push(b)),
        components_before(dir, dir.push(a)),
    decreases dir.len(), k,
{
    lemma_text_before_at(a, b, k);
    lemma_text_irreflexive(a);
    if dir.len() > 0 {
        let rest = dir.skip(1);
        lemma_order_of_names(rest, a, b, k);
        assert(dir.push(a).skip(1) =~= rest.push(a));
        assert(dir.push(b).skip(1) =~= rest.push(b));
    } else {
        assert(dir.push(a)[0] == a && dir.push(b)[0] == b);
    }
}

proof fn lemma_text_before_at(a: Seq<char>, b: Seq<char>, k: int)
    requires
        0 <= k <= a.len(),
        k < b.len(),
        forall|i: int| 0 <= i < k ==> a[i] == b[i],
        k == a.len() || a[k] < b[k],
    ensures
        text_before(a, b),
    decreases k,
{
    if k > 0 {
        assert(a[0] == b[0]);
        assert forall|i: int| 0 <= i < k - 1 implies a.skip(1)[i] == b.skip(1)[i] by {
            assert(a[i + 1] == b[i + 1]);
        }
        lemma_text_before_at(a.skip(1), b.skip(1), k - 1);
    }
}

/// Two found files are the same exactly where their components are; each file that was
/// found has one among those that are kept.
pub proof fn lemma_found_is_kept(found: Seq<Seq<char>>, kept: Seq<Seq<char>>, i: int, rules: PathRules)
    requires
        forall|file: Seq<char>| #[trigger]
            kept.contains(file) <==> is_first_found(found, file, rules),
        0 <= i < found.len(),
    ensures
        exists|k: int|
            0 <= k < kept.len() && components_by(#[trigger] kept[k], rules) == components_by(
                found[i],
                rules,
            ),
        forall|k: int| 0 <= k < kept.len() ==> found.contains(#[trigger] kept[k]),
{
    lemma_first_found(found, i, rules);
    let f = choose|f: Seq<char>| #[trigger]
        is_first_found(found, f, rules) && same_path(f, found[i], rules);
    assert(kept.contains(f));
    let k = choose|k: int| 0 <= k < kept.len() && kept[k] == f;
    assert(components_by(kept[k], rules) == components_by(found[i], rules));
    assert forall|k: int| 0 <= k < kept.len() implies found.contains(#[trigger] kept[k]) by {
        assert(kept.contains(kept[k]));
        assert(is_first_found(found, kept[k], rules));
    }
}

/// Of different kinds of components a prefix comes first, then the root, the current
/// directory and the parent directory; names come last.
pub proof fn lemma_kinds_in_order(prefix: Seq<char>, name: Seq<char>)
    requires
        prefix.len() > 1,
        prefix[0] == '/',
        name.len() > 0,
        name[0] != '/',
        name != "."@,
        name != ".."@,
    ensures
        component_before(prefix, "/"@),
        component_before("/"@, "."@),
        component_before("."@, ".."@),
        component_before(".."@, name),
        component_before("/"@, name),
        component_before("."@, name),
        !component_before(name, "/"@),
        !component_before(name, ".."@),
{
    reveal_strlit("/");
    reveal_strlit(".");
    reveal_strlit("..");
    assert(".."@ != "."@) by {
        assert(".."@.len() == 2 && "."@.len() == 1);
    }
    assert("."@[0] != '/' && ".."@[0] != '/');
}

} // verus!
