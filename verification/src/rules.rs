//! How paths are read: by the rules of Unix, or by those of Windows.

use crate::paths::below;
use crate::paths::components;
use crate::paths::is_absolute;
use crate::paths::is_name;
use crate::paths::is_significant;
use crate::paths::join_paths;
use crate::paths::joined_path;
use crate::paths::lead;
use crate::paths::lemma_components_are_names;
use crate::paths::lemma_rest_directory;
use crate::paths::matches_at;
use crate::paths::names;
use crate::paths::path_below;
use crate::paths::path_rest;
use crate::paths::rest_after;
use crate::paths::rest_start;
use crate::paths::split_components;
use crate::paths::text_of;
use crate::text::join_text;
use crate::text::joined;
use crate::text::pieces;
use crate::text::same_text;
use crate::text::split_text;
use crate::text::text_between;
use crate::text::to_chars;
use vstd::prelude::*;

verus! {

/// Whose rules paths follow.
#[derive(Debug, Clone, Copy, PartialEq, Eq, Structural)]
pub enum PathRules {
    /// The slash parts names.
    Unix,
    /// The slash and the backslash part names, and a path may start with a prefix such as
    /// `C:` or `\\server\share`. Behind the prefix `\\?\` only the backslash parts names.
    Windows,
}

/// The path starts with `\\?\`, written with backslashes.
pub open spec fn is_verbatim(path: Seq<char>) -> bool {
    path.len() >= 4 && path[0] == '\\' && path[1] == '\\' && path[2] == '?' && path[3] == '\\'
}

/// The character parts names, in a path that is verbatim or not.
pub open spec fn is_separator(verbatim: bool, c: char) -> bool {
    c == '\\' || (c == '/' && !verbatim)
}

/// The character with the slash in the role of the separator.
pub open spec fn unified_char(verbatim: bool, c: char) -> char {
    if is_separator(verbatim, c) {
        '/'
    } else if c == '/' {
        '\\'
    } else {
        c
    }
}

/// The text with the slash in the role of the separator.
pub open spec fn unified(verbatim: bool, s: Seq<char>) -> Seq<char> {
    s.map_values(|c: char| unified_char(verbatim, c))
}

pub open spec fn is_letter(c: char) -> bool {
    'a' <= c <= 'z' || 'A' <= c <= 'Z'
}

pub open spec fn upper(c: char) -> char {
    if 'a' <= c <= 'z' {
        (c as u32 - 32) as char
    } else {
        c
    }
}

/// The text starts with the name of a drive.
pub open spec fn has_drive(path: Seq<char>) -> bool {
    path.len() >= 2 && is_letter(path[0]) && path[1] == ':'
}

/// The place of the first separator from `from` on, or the end.
pub open spec fn next_separator(path: Seq<char>, from: int) -> int
    decreases path.len() - from,
{
    if from < 0 || from >= path.len() {
        path.len() as int
    } else if is_separator(is_verbatim(path), path[from]) {
        from
    } else {
        next_separator(path, from + 1)
    }
}

/// The prefix is `\\?\UNC\` and what follows.
pub open spec fn is_verbatim_share(path: Seq<char>) -> bool {
    is_verbatim(path) && next_separator(path, 4) < path.len() && path.subrange(
        4,
        next_separator(path, 4),
    ) == "UNC"@
}

/// The length of the prefix of a path of Windows; zero where it has none. It is a drive;
/// `\\server\share`; `\\.\device`; `\\?\name`; or `\\?\UNC\server\share`.
pub open spec fn prefix_len(path: Seq<char>) -> int {
    let v = is_verbatim(path);
    if has_drive(path) {
        2
    } else if path.len() < 2 || !is_separator(v, path[0]) || !is_separator(v, path[1]) {
        0
    } else {
        let server = next_separator(path, 2);
        let share = next_separator(path, server + 1);
        if server >= path.len() {
            0
        } else if is_verbatim_share(path) {
            let inner = next_separator(path, share + 1);
            let end = next_separator(path, inner + 1);
            if end > inner + 1 {
                end
            } else {
                inner
            }
        } else if v || (server == 3 && path[2] == '.') {
            share
        } else if server > 2 && share > server + 1 {
            share
        } else {
            0
        }
    }
}

/// The kinds of prefixes, in their order.
pub open spec fn prefix_kind(path: Seq<char>) -> char {
    if has_drive(path) {
        '5'
    } else if is_verbatim_share(path) {
        '1'
    } else if is_verbatim(path) {
        if prefix_len(path) == 6 && has_drive(path.skip(4)) {
            '2'
        } else {
            '0'
        }
    } else if path[2] == '.' && next_separator(path, 2) == 3 {
        '3'
    } else {
        '4'
    }
}

/// The prefix as a component: behind a slash, which no name holds, its kind and its text.
/// The case of a drive's letter does not count.
pub open spec fn prefix_component(path: Seq<char>) -> Seq<char> {
    let kind = prefix_kind(path);
    if kind == '5' {
        seq!['/', kind, upper(path[0])]
    } else if kind == '2' {
        seq!['/', kind, upper(path[4])]
    } else {
        seq!['/', kind] + unified(is_verbatim(path), path.take(prefix_len(path)))
    }
}

/// What stands behind the prefix, with the slash in the role of the separator.
pub open spec fn body(path: Seq<char>) -> Seq<char> {
    unified(is_verbatim(path), path.skip(prefix_len(path)))
}

/// The components of a path of Windows. Behind a prefix that is no drive stands the root,
/// written or not.
pub open spec fn windows_components(path: Seq<char>) -> Seq<Seq<char>> {
    if prefix_len(path) == 0 {
        components(body(path))
    } else if prefix_len(path) > 2 && body(path).len() == 0 {
        seq![prefix_component(path), "/"@]
    } else {
        seq![prefix_component(path)] + components(body(path))
    }
}

/// The components of a path.
pub open spec fn components_by(path: Seq<char>, rules: PathRules) -> Seq<Seq<char>> {
    match rules {
        PathRules::Unix => components(path),
        PathRules::Windows => windows_components(path),
    }
}

/// The path starts neither with a prefix nor at the root.
pub open spec fn is_plain(path: Seq<char>, rules: PathRules) -> bool {
    match rules {
        PathRules::Unix => !is_absolute(path),
        PathRules::Windows => prefix_len(path) == 0 && (path.len() == 0 || !is_separator(
            is_verbatim(path),
            path[0],
        )),
    }
}

/// The names of a directory and what a path with the given components leads to from
/// there: the parent directory takes the last name away, and the root all of them.
pub open spec fn walked(names: Seq<Seq<char>>, steps: Seq<Seq<char>>) -> Seq<Seq<char>>
    decreases steps.len(),
{
    if steps.len() == 0 {
        names
    } else {
        let before = walked(names, steps.drop_last());
        let step = steps.last();
        if step == "/"@ {
            seq![]
        } else if step == "."@ {
            before
        } else if step == ".."@ {
            if before.len() > 0 && before.last() != ".."@ {
                before.drop_last()
            } else {
                before
            }
        } else {
            before.push(step)
        }
    }
}

/// A path seen from a directory whose path is verbatim: the names are spelled out.
pub open spec fn verbatim_joined(base: Seq<char>, path: Seq<char>) -> Seq<char> {
    let inner = names(pieces(body(base), '/')).map_values(|name: Seq<char>| unified(true, name));
    base.take(prefix_len(base)).push('\\') + joined(
        walked(inner, components(unified(false, path))),
        '\\',
    )
}

/// `path` seen from the directory `base`, by the rules of Windows: a path with a prefix
/// stays, and one that starts at the root keeps the prefix of `base`.
pub open spec fn windows_joined(base: Seq<char>, path: Seq<char>) -> Seq<char> {
    if prefix_len(path) > 0 {
        path
    } else if is_verbatim(base) && path.len() > 0 {
        verbatim_joined(base, path)
    } else if !is_plain(path, PathRules::Windows) {
        base.take(prefix_len(base)) + path
    } else if base.len() == 0 || is_separator(is_verbatim(base), base.last()) || (has_drive(base)
        && base.len() == 2) {
        base + path
    } else {
        base.push('\\') + path
    }
}

/// `path` seen from the directory `base`.
pub open spec fn joined_by(base: Seq<char>, path: Seq<char>, rules: PathRules) -> Seq<char> {
    match rules {
        PathRules::Unix => joined_path(base, path),
        PathRules::Windows => windows_joined(base, path),
    }
}

/// What is left of `path` behind its first `n` components, by the rules of Windows.
pub open spec fn windows_rest(path: Seq<char>, n: nat) -> Seq<char> {
    let prefix = prefix_len(path);
    let inner = (if prefix > 0 && n > 0 {
        n - 1
    } else {
        n as int
    }) as nat;
    if body(path).len() == 0 {
        if n == 0 {
            path
        } else {
            seq![]
        }
    } else {
        let start = prefix + rest_start(body(path), inner);
        path.subrange(
            if n == 0 {
                0
            } else {
                start
            },
            start + rest_after(body(path), inner).len(),
        )
    }
}

/// What is left of `path` below the directory `base`, where it lies there.
pub open spec fn below_by(path: Seq<char>, base: Seq<char>, rules: PathRules) -> Option<Seq<char>> {
    match rules {
        PathRules::Unix => below(path, base),
        PathRules::Windows => if windows_components(base).is_prefix_of(windows_components(path)) {
            Some(windows_rest(path, windows_components(base).len()))
        } else {
            None
        },
    }
}

/// The components of `tail` are the last ones of `path`.
pub open spec fn ends_with_by(path: Seq<char>, tail: Seq<char>, rules: PathRules) -> bool {
    components_by(tail, rules).is_suffix_of(components_by(path, rules))
}

fn verbatim(path: &Vec<char>) -> (r: bool)
    ensures
        r == is_verbatim(path@),
{
    path.len() >= 4 && path[0] == '\\' && path[1] == '\\' && path[2] == '?' && path[3] == '\\'
}

fn parts_names(verbatim: bool, c: char) -> (r: bool)
    ensures
        r == is_separator(verbatim, c),
{
    c == '\\' || (c == '/' && !verbatim)
}

fn unify_char(verbatim: bool, c: char) -> (r: char)
    ensures
        r == unified_char(verbatim, c),
{
    if parts_names(verbatim, c) {
        '/'
    } else if c == '/' {
        '\\'
    } else {
        c
    }
}

fn letter(c: char) -> (r: bool)
    ensures
        r == is_letter(c),
{
    'a' <= c && c <= 'z' || 'A' <= c && c <= 'Z'
}

fn to_upper(c: char) -> (r: char)
    ensures
        r == upper(c),
{
    if 'a' <= c && c <= 'z' {
        let code: u8 = c as u8;
        (code - 32) as char
    } else {
        c
    }
}

fn drive_at(path: &Vec<char>, at: usize) -> (r: bool)
    requires
        at <= path@.len(),
    ensures
        r == has_drive(path@.skip(at as int)),
{
    path.len() - at >= 2 && letter(path[at]) && path[at + 1] == ':'
}

fn find_separator(path: &Vec<char>, from: usize) -> (r: usize)
    ensures
        r == next_separator(path@, from as int),
        r <= path@.len(),
{
    let v: bool = verbatim(path);
    let mut i: usize = from;
    if from > path.len() {
        return path.len();
    }
    while i < path.len() && !parts_names(v, path[i])
        invariant
            i <= path@.len(),
            v == is_verbatim(path@),
            next_separator(path@, from as int) == next_separator(path@, i as int),
        decreases path.len() - i,
    {
        i += 1;
    }
    i
}

proof fn lemma_next_separator(path: Seq<char>, from: int)
    requires
        0 <= from,
    ensures
        next_separator(path, from) <= path.len(),
        from <= path.len() ==> from <= next_separator(path, from),
        next_separator(path, from) < path.len() ==> is_separator(
            is_verbatim(path),
            path[next_separator(path, from)],
        ),
    decreases path.len() - from,
{
    if from < path.len() && !is_separator(is_verbatim(path), path[from]) {
        lemma_next_separator(path, from + 1);
    }
}

/// A prefix lies within its path.
proof fn lemma_prefix_len(path: Seq<char>)
    ensures
        0 <= prefix_len(path) <= path.len(),
        prefix_len(path) > 0 ==> prefix_len(path) >= 2,
        prefix_len(path) > 0 && !has_drive(path) ==> prefix_len(path) > 2 && path.len() > 2,
{
    lemma_next_separator(path, 2);
    let server = next_separator(path, 2);
    lemma_next_separator(path, server + 1);
    let share = next_separator(path, server + 1);
    lemma_next_separator(path, share + 1);
    let inner = next_separator(path, share + 1);
    lemma_next_separator(path, inner + 1);
    if is_verbatim(path) {
        reveal_with_fuel(next_separator, 3);
        assert(server == 3);
    }
}

/// A verbatim path has a prefix.
proof fn lemma_verbatim_prefix(path: Seq<char>)
    ensures
        is_verbatim(path) ==> prefix_len(path) > 0,
{
    lemma_prefix_len(path);
    if is_verbatim(path) {
        reveal_with_fuel(next_separator, 3);
        let share = next_separator(path, 4);
        lemma_next_separator(path, 4);
        lemma_next_separator(path, share + 1);
        let inner = next_separator(path, share + 1);
        lemma_next_separator(path, inner + 1);
        assert(next_separator(path, 2) == 3);
    }
}

fn verbatim_share(path: &Vec<char>) -> (r: bool)
    ensures
        r == is_verbatim_share(path@),
{
    if !verbatim(path) {
        return false;
    }
    let end: usize = find_separator(path, 4);
    proof {
        reveal_strlit("UNC");
        lemma_next_separator(path@, 4);
    }
    if end < path.len() && end == 7 && path[4] == 'U' && path[5] == 'N' && path[6] == 'C' {
        assert(path@.subrange(4, end as int) =~= "UNC"@);
        true
    } else {
        proof {
            if end < path@.len() && path@.subrange(4, end as int) == "UNC"@ {
                let s = path@.subrange(4, end as int);
                assert(s.len() == "UNC"@.len());
                assert(s[0] == 'U' && s[1] == 'N' && s[2] == 'C');
                assert(s.len() == end - 4);
                assert(s[0] == path@[4] && s[1] == path@[5] && s[2] == path@[6]);
            }
        }
        false
    }
}

fn find_prefix(path: &Vec<char>) -> (r: usize)
    ensures
        r == prefix_len(path@),
        r <= path@.len(),
{
    proof {
        lemma_prefix_len(path@);
        assert(path@.skip(0) =~= path@);
    }
    let v: bool = verbatim(path);
    if drive_at(path, 0) {
        return 2;
    }
    if path.len() < 2 || !parts_names(v, path[0]) || !parts_names(v, path[1]) {
        return 0;
    }
    let server: usize = find_separator(path, 2);
    if server >= path.len() {
        return 0;
    }
    let share: usize = find_separator(path, server + 1);
    if verbatim_share(path) {
        proof {
            lemma_next_separator(path@, 4);
            reveal_with_fuel(next_separator, 3);
            assert(share < path@.len());
        }
        let inner: usize = find_separator(path, share + 1);
        if inner >= path.len() {
            return inner;
        }
        let end: usize = find_separator(path, inner + 1);
        if end > inner + 1 {
            end
        } else {
            inner
        }
    } else if v || (server == 3 && path[2] == '.') {
        share
    } else if server > 2 && share > server + 1 {
        share
    } else {
        0
    }
}

/// The characters from `start` up to `end`, with the slash in the role of the separator.
fn unify(path: &Vec<char>, start: usize, end: usize) -> (r: String)
    requires
        start <= end <= path@.len(),
    ensures
        r@ == unified(is_verbatim(path@), path@.subrange(start as int, end as int)),
{
    let v: bool = verbatim(path);
    let mut r: String = String::new();
    let mut i: usize = start;
    while i < end
        invariant
            start <= i <= end <= path@.len(),
            v == is_verbatim(path@),
            r@ == unified(v, path@.subrange(start as int, i as int)),
        decreases end - i,
    {
        r.push(unify_char(v, path[i]));
        i += 1;
        assert(r@ =~= unified(v, path@.subrange(start as int, i as int)));
    }
    r
}

fn find_prefix_component(path: &Vec<char>, prefix: usize) -> (r: String)
    requires
        prefix == prefix_len(path@),
        prefix > 0,
    ensures
        r@ == prefix_component(path@),
{
    proof {
        lemma_prefix_len(path@);
        assert(path@.skip(0) =~= path@);
    }
    let mut r: String = String::new();
    r.push('/');
    if drive_at(path, 0) {
        r.push('5');
        r.push(to_upper(path[0]));
        assert(r@ =~= prefix_component(path@));
        return r;
    }
    if verbatim_share(path) {
        r.push('1');
    } else if verbatim(path) {
        if prefix == 6 && drive_at(path, 4) {
            r.push('2');
            r.push(to_upper(path[4]));
            assert(r@ =~= prefix_component(path@));
            return r;
        }
        r.push('0');
    } else if path[2] == '.' && find_separator(path, 2) == 3 {
        r.push('3');
    } else {
        r.push('4');
    }
    let text: String = unify(path, 0, prefix);
    r.push_str(text.as_str());
    proof {
        assert(path@.subrange(0, prefix as int) =~= path@.take(prefix as int));
        assert(r@ =~= prefix_component(path@));
    }
    r
}

fn find_body(path: &Vec<char>, prefix: usize) -> (r: String)
    requires
        prefix == prefix_len(path@),
    ensures
        r@ == body(path@),
        r@.len() == path@.len() - prefix,
{
    proof {
        lemma_prefix_len(path@);
        assert(path@.subrange(prefix as int, path@.len() as int) =~= path@.skip(prefix as int));
    }
    unify(path, prefix, path.len())
}

/// The components of a path.
pub fn split_components_by(path: &str, rules: PathRules) -> (r: Vec<String>)
    ensures
        r.deep_view() == components_by(path@, rules),
{
    match rules {
        PathRules::Unix => split_components(path),
        PathRules::Windows => {
            let chars: Vec<char> = to_chars(path);
            let prefix: usize = find_prefix(&chars);
            let inner: String = find_body(&chars, prefix);
            if prefix == 0 {
                return split_components(inner.as_str());
            }
            let mut r: Vec<String> = Vec::new();
            r.push(find_prefix_component(&chars, prefix));
            if prefix > 2 && chars.len() == prefix {
                r.push("/".to_string());
                assert(r.deep_view() =~= components_by(path@, rules));
                return r;
            }
            let mut rest: Vec<String> = split_components(inner.as_str());
            let ghost tail = rest.deep_view();
            let ghost head = r.deep_view();
            r.append(&mut rest);
            assert(r.deep_view() =~= head + tail);
            assert(head =~= seq![prefix_component(path@)]);
            r
        },
    }
}

/// Whether the components of `tail` are the last ones of `path`.
pub fn path_ends_with(path: &str, tail: &str, rules: PathRules) -> (r: bool)
    ensures
        r == ends_with_by(path@, tail@, rules),
{
    let all: Vec<String> = split_components_by(path, rules);
    let texts: Vec<String> = split_components_by(tail, rules);
    proof {
        assert(all.deep_view().len() == all@.len());
        assert(texts.deep_view().len() == texts@.len());
    }
    if texts.len() > all.len() {
        return false;
    }
    let start: usize = all.len() - texts.len();
    matches_at(&all, start, &texts)
}

/// Whether two paths have the same components.
pub fn same_components(a: &str, b: &str, rules: PathRules) -> (r: bool)
    ensures
        r == (components_by(a@, rules) == components_by(b@, rules)),
{
    let x: Vec<String> = split_components_by(a, rules);
    let y: Vec<String> = split_components_by(b, rules);
    proof {
        assert(x.deep_view().len() == x@.len());
        assert(y.deep_view().len() == y@.len());
        assert(x.deep_view().subrange(0, x@.len() as int) =~= x.deep_view());
    }
    x.len() == y.len() && matches_at(&x, 0, &y)
}

/// Whether the path starts neither with a prefix nor at the root.
pub fn is_plain_path(path: &str, rules: PathRules) -> (r: bool)
    ensures
        r == is_plain(path@, rules),
{
    let chars: Vec<char> = to_chars(path);
    match rules {
        PathRules::Unix => chars.len() == 0 || chars[0] != '/',
        PathRules::Windows => find_prefix(&chars) == 0 && (chars.len() == 0 || !parts_names(
            verbatim(&chars),
            chars[0],
        )),
    }
}

/// `path` seen from the directory `base`.
pub fn join_paths_by(base: &str, path: &str, rules: PathRules) -> (r: String)
    ensures
        r@ == joined_by(base@, path@, rules),
{
    match rules {
        PathRules::Unix => join_paths(base, path),
        PathRules::Windows => {
            let tail: Vec<char> = to_chars(path);
            if find_prefix(&tail) > 0 {
                return path.to_string();
            }
            let head: Vec<char> = to_chars(base);
            if verbatim(&head) && tail.len() > 0 {
                proof {
                    lemma_verbatim_prefix(path@);
                }
                return join_verbatim(&head, &tail);
            }
            if !is_plain_path(path, rules) {
                let prefix: usize = find_prefix(&head);
                let mut r: String = text_between(&head, 0, prefix);
                assert(head@.subrange(0, prefix as int) =~= head@.take(prefix as int));
                r.push_str(path);
                return r;
            }
            assert(head@.skip(0) =~= head@);
            let mut r: String = base.to_string();
            let open: bool = head.len() == 0 || parts_names(verbatim(&head), head[head.len() - 1])
                || (drive_at(&head, 0) && head.len() == 2);
            if !open {
                r.push('\\');
            }
            r.push_str(path);
            r
        },
    }
}

/// What the steps lead to from the names.
fn walk(names: Vec<String>, steps: &Vec<String>) -> (r: Vec<String>)
    ensures
        r.deep_view() == walked(names.deep_view(), steps.deep_view()),
{
    let ghost first = names.deep_view();
    let ghost all = steps.deep_view();
    let mut r: Vec<String> = names;
    let mut i: usize = 0;
    assert(all.take(0) =~= seq![]);
    while i < steps.len()
        invariant
            i <= steps@.len(),
            all == steps.deep_view(),
            r.deep_view() == walked(first, all.take(i as int)),
        decreases steps.len() - i,
    {
        let ghost before = r.deep_view();
        let ghost t = all.take(i + 1);
        proof {
            assert(t.drop_last() =~= all.take(i as int));
            assert(t.last() == steps@[i as int]@);
            assert(before.len() == r@.len());
            if r@.len() > 0 {
                assert(before.last() == r@.last()@);
            }
        }
        let step: &str = steps[i].as_str();
        if same_text(step, "/") {
            r = Vec::new();
            assert(r.deep_view() =~= seq![]);
        } else if same_text(step, ".") {
        } else if same_text(step, "..") {
            if r.len() > 0 && !same_text(r[r.len() - 1].as_str(), "..") {
                r.pop();
                assert(r.deep_view() =~= before.drop_last());
            }
        } else {
            r.push(step.to_string());
            assert(r.deep_view() =~= before.push(step@));
        }
        i += 1;
    }
    assert(all.take(i as int) =~= all);
    r
}

/// The names among the pieces of a verbatim path, as they are written.
fn written_names(parts: &Vec<String>) -> (r: Vec<String>)
    ensures
        r.deep_view() == names(parts.deep_view()).map_values(
            |name: Seq<char>| unified(true, name),
        ),
{
    let ghost written = |name: Seq<char>| unified(true, name);
    let ghost all = parts.deep_view();
    let mut r: Vec<String> = Vec::new();
    let mut i: usize = 0;
    proof {
        assert(all.take(0) =~= seq![]);
        assert(r.deep_view() =~= names(all.take(0)).map_values(written));
    }
    while i < parts.len()
        invariant
            i <= parts@.len(),
            all == parts.deep_view(),
            written == (|name: Seq<char>| unified(true, name)),
            r.deep_view() == names(all.take(i as int)).map_values(written),
        decreases parts.len() - i,
    {
        let ghost before = r.deep_view();
        let ghost t = all.take(i + 1);
        assert(t.drop_last() =~= all.take(i as int));
        assert(t.last() == parts@[i as int]@);
        if is_significant(parts[i].as_str()) {
            let name: Vec<char> = to_chars(parts[i].as_str());
            let text: String = swap_separators(&name);
            r.push(text);
            assert(r.deep_view() =~= before.push(text@));
            assert(names(t).map_values(written) =~= before.push(text@));
        }
        i += 1;
    }
    assert(all.take(i as int) =~= all);
    r
}

fn swap_separators(name: &Vec<char>) -> (r: String)
    ensures
        r@ == unified(true, name@),
{
    let mut r: String = String::new();
    let mut i: usize = 0;
    while i < name.len()
        invariant
            i <= name@.len(),
            r@ == unified(true, name@.take(i as int)),
        decreases name.len() - i,
    {
        r.push(unify_char(true, name[i]));
        i += 1;
        assert(r@ =~= unified(true, name@.take(i as int)));
    }
    assert(name@.take(i as int) =~= name@);
    r
}

fn join_verbatim(base: &Vec<char>, path: &Vec<char>) -> (r: String)
    requires
        is_verbatim(base@),
        !is_verbatim(path@),
    ensures
        r@ == verbatim_joined(base@, path@),
{
    let prefix: usize = find_prefix(base);
    let parts: Vec<String> = split_text(find_body(base, prefix).as_str(), '/');
    let names: Vec<String> = written_names(&parts);
    let inner: String = unify(path, 0, path.len());
    assert(path@.subrange(0, path@.len() as int) =~= path@);
    let steps: Vec<String> = split_components(inner.as_str());
    let left: Vec<String> = walk(names, &steps);
    let mut r: String = text_between(base, 0, prefix);
    assert(base@.subrange(0, prefix as int) =~= base@.take(prefix as int));
    r.push('\\');
    let text: String = join_text(&left, 0, left.len(), '\\');
    assert(left.deep_view().subrange(0, left@.len() as int) =~= left.deep_view());
    r.push_str(text.as_str());
    r
}

fn find_windows_rest(path: &str, n: usize) -> (r: String)
    requires
        n <= windows_components(path@).len(),
    ensures
        r@ == windows_rest(path@, n as nat),
{
    let chars: Vec<char> = to_chars(path);
    let prefix: usize = find_prefix(&chars);
    let text: String = find_body(&chars, prefix);
    if prefix == chars.len() {
        return if n == 0 {
            path.to_string()
        } else {
            let none: String = String::new();
            assert(none@ =~= seq![]);
            none
        };
    }
    let inner: usize = if prefix > 0 && n > 0 {
        n - 1
    } else {
        n
    };
    let (rest, start) = path_rest(text.as_str(), inner);
    let count: usize = to_chars(rest.as_str()).len();
    let from: usize = if n == 0 {
        0
    } else {
        prefix + start
    };
    text_between(&chars, from, prefix + start + count)
}

/// What is left of `path` below the directory `base`, where it lies there.
pub fn path_below_by(path: &str, base: &str, rules: PathRules) -> (r: Option<String>)
    ensures
        text_of(r) == below_by(path@, base@, rules),
{
    match rules {
        PathRules::Unix => path_below(path, base),
        PathRules::Windows => {
            let all: Vec<String> = split_components_by(path, rules);
            let outer: Vec<String> = split_components_by(base, rules);
            proof {
                assert(all.deep_view().len() == all@.len());
                assert(outer.deep_view().len() == outer@.len());
                if outer@.len() <= all@.len() {
                    assert(all.deep_view().subrange(0, outer@.len() as int)
                        =~= all.deep_view().take(outer@.len() as int));
                }
            }
            if outer.len() > all.len() || !matches_at(&all, 0, &outer) {
                return None;
            }
            Some(find_windows_rest(path, outer.len()))
        },
    }
}

/// A path ends with another only where their last components are equal: no name is
/// matched in part.
pub proof fn lemma_suffix_whole(path: Seq<char>, tail: Seq<char>, rules: PathRules)
    requires
        ends_with_by(path, tail, rules),
        components_by(tail, rules).len() > 0,
    ensures
        components_by(path, rules).len() > 0,
        components_by(path, rules).last() == components_by(tail, rules).last(),
{
    let a = components_by(path, rules);
    let b = components_by(tail, rules);
    assert(b[b.len() - 1] == a.subrange(a.len() - b.len(), a.len() as int)[b.len() - 1]);
}

/// The path with backslashes in the place of slashes.
pub open spec fn with_backslashes(path: Seq<char>) -> Seq<char> {
    path.map_values(
        |c: char|
            if c == '/' {
                '\\'
            } else {
                c
            },
    )
}

/// By the rules of Windows, slashes and backslashes part names alike, unless the path is
/// verbatim.
pub proof fn lemma_slashes_alike(path: Seq<char>)
    requires
        !is_verbatim(path),
        !is_verbatim(with_backslashes(path)),
    ensures
        windows_components(with_backslashes(path)) == windows_components(path),
        is_plain(with_backslashes(path), PathRules::Windows) == is_plain(path, PathRules::Windows),
{
    let other = with_backslashes(path);
    assert(other.len() == path.len());
    assert forall|i: int| 0 <= i < path.len() implies unified_char(false, #[trigger] other[i])
        == unified_char(false, path[i]) && is_separator(false, other[i]) == is_separator(
        false,
        path[i],
    ) && (path[i] != '/' ==> other[i] == path[i]) by {}
    lemma_next_alike(path, other, 2);
    lemma_prefix_len(path);
    let server = next_separator(path, 2);
    lemma_next_separator(path, 2);
    lemma_next_alike(path, other, server + 1);
    assert(has_drive(other) == has_drive(path));
    assert(prefix_len(other) == prefix_len(path));
    let n = prefix_len(path);
    assert(unified(false, other.skip(n)) =~= unified(false, path.skip(n)));
    assert(unified(false, other.take(n)) =~= unified(false, path.take(n)));
    if n > 0 {
        assert(prefix_kind(other) == prefix_kind(path));
        assert(prefix_component(other) =~= prefix_component(path));
    }
}

proof fn lemma_next_alike(path: Seq<char>, other: Seq<char>, from: int)
    requires
        !is_verbatim(path),
        !is_verbatim(other),
        other.len() == path.len(),
        forall|i: int|
            0 <= i < path.len() ==> is_separator(false, #[trigger] other[i]) == is_separator(
                false,
                path[i],
            ),
    ensures
        next_separator(other, from) == next_separator(path, from),
    decreases path.len() - from,
{
    if 0 <= from < path.len() {
        assert(is_separator(false, other[from]) == is_separator(false, path[from]));
        lemma_next_alike(path, other, from + 1);
    }
}

/// The case of a drive's letter does not count, and the letter does.
pub proof fn lemma_drive_letter(small: char, large: char, other: char, rest: Seq<char>)
    requires
        'a' <= small <= 'z',
        'A' <= large <= 'Z',
        small as u32 == large as u32 + 32,
        'A' <= other <= 'Z',
        other != large,
    ensures
        windows_components(seq![small, ':'] + rest) == windows_components(seq![large, ':'] + rest),
        windows_components(seq![other, ':'] + rest)[0] != windows_components(
            seq![large, ':'] + rest,
        )[0],
        windows_components(seq![large, ':'] + rest).len() > 0,
{
    let a = seq![small, ':'] + rest;
    let b = seq![large, ':'] + rest;
    let c = seq![other, ':'] + rest;
    assert(upper(small) == large);
    assert(a.skip(2) =~= rest);
    assert(b.skip(2) =~= rest);
    assert(c.skip(2) =~= rest);
    assert(prefix_component(b)[2] == large);
    assert(prefix_component(c)[2] == other);
    assert(windows_components(b)[0] == prefix_component(b));
    assert(windows_components(c)[0] == prefix_component(c));
}

/// A path without backslashes that has no prefix has the same components by both rules.
pub proof fn lemma_rules_agree(path: Seq<char>)
    requires
        !path.contains('\\'),
        !has_drive(path),
        path.len() < 2 || path[0] != '/' || path[1] != '/',
    ensures
        components_by(path, PathRules::Windows) == components_by(path, PathRules::Unix),
        components_by(path, PathRules::Unix) == components(path),
{
    assert forall|i: int| 0 <= i < path.len() implies #[trigger] path[i] != '\\' by {
        assert(path.contains(path[i]));
    }
    assert(!is_verbatim(path));
    assert(prefix_len(path) == 0);
    assert(unified(false, path.skip(0)) =~= path);
}

/// By the rules of Windows, a path with a drive stays as it is; one that starts with a
/// single separator keeps only the drive of the directory; and any other stands behind the
/// directory, with a backslash between them where the directory does not end with a
/// separator.
pub proof fn lemma_windows_joined(base: Seq<char>, path: Seq<char>)
    requires
        !is_verbatim(base),
        !is_verbatim(path),
    ensures
        has_drive(path) ==> windows_joined(base, path) == path,
        !has_drive(path) && path.len() > 0 && (path[0] == '\\' || path[0] == '/') && (path.len()
            == 1 || (path[1] != '\\' && path[1] != '/')) && has_drive(base) ==> windows_joined(
            base,
            path,
        ) == seq![base[0], ':'] + path,
        !has_drive(path) && path.len() > 0 && path[0] != '\\' && path[0] != '/' && base.len() > 2
            && base.last() != '\\' && base.last() != '/' ==> windows_joined(base, path)
            == base.push('\\') + path,
        !has_drive(path) && path.len() > 0 && path[0] != '\\' && path[0] != '/' && base.len() > 0
            && (base.last() == '\\' || base.last() == '/') ==> windows_joined(base, path) == base
            + path,
{
    if has_drive(base) {
        assert(base.take(2) =~= seq![base[0], ':']);
    }
}

/// The components of a path end with those of another exactly where its last ones are the
/// same, one by one.
pub proof fn lemma_ends_with(path: Seq<char>, tail: Seq<char>, rules: PathRules)
    ensures
        ({
            let a = components_by(path, rules);
            let b = components_by(tail, rules);
            ends_with_by(path, tail, rules) <==> b.len() <= a.len() && forall|i: int|
                0 <= i < b.len() ==> b[i] == a[a.len() - b.len() + i]
        }),
{
    let a = components_by(path, rules);
    let b = components_by(tail, rules);
    if b.len() <= a.len() {
        let last = a.subrange(a.len() - b.len(), a.len() as int);
        if forall|i: int| 0 <= i < b.len() ==> b[i] == a[a.len() - b.len() + i] {
            assert(b =~= last);
        }
        if b == last {
            assert forall|i: int| 0 <= i < b.len() implies b[i] == a[a.len() - b.len() + i] by {
                assert(last[i] == a[a.len() - b.len() + i]);
            }
        }
    }
}

proof fn lemma_next_at(path: Seq<char>, from: int, at: int)
    requires
        0 <= from <= at <= path.len(),
        forall|i: int| from <= i < at ==> !is_separator(is_verbatim(path), #[trigger] path[i]),
        at == path.len() || is_separator(is_verbatim(path), path[at]),
    ensures
        next_separator(path, from) == at,
    decreases at - from,
{
    if from < at {
        assert(!is_separator(is_verbatim(path), path[from]));
        lemma_next_at(path, from + 1, at);
    }
}

/// A text in which no separator of Windows stands.
pub open spec fn is_whole(name: Seq<char>) -> bool {
    name.len() > 0 && !name.contains('\\') && !name.contains('/')
}

/// A server and its share are a prefix, whatever stands behind them; a server without a
/// share is none, and the path starts at the root.
pub proof fn lemma_share_prefix(server: Seq<char>, share: Seq<char>, rest: Seq<char>)
    requires
        is_whole(server),
        is_whole(share),
        server != "."@,
        server != "?"@,
        rest.len() == 0 || rest[0] == '\\' || rest[0] == '/',
    ensures
        prefix_len(seq!['\\', '\\'] + server.push('\\') + share + rest) == server.len()
            + share.len() + 3,
        prefix_len(seq!['\\', '\\'] + server.push('\\') + rest) == 0,
        prefix_len(seq!['\\', '\\'] + server) == 0,
{
    reveal_strlit(".");
    reveal_strlit("?");
    let path = seq!['\\', '\\'] + server.push('\\') + share + rest;
    let bare = seq!['\\', '\\'] + server.push('\\') + rest;
    let alone = seq!['\\', '\\'] + server;
    let s = server.len() as int;
    let n = s + share.len() + 3;
    assert forall|i: int| 0 <= i < s implies #[trigger] server[i] != '\\' && server[i] != '/' by {
        assert(server.contains(server[i]));
    }
    assert forall|i: int| 0 <= i < share.len() implies #[trigger] share[i] != '\\' && share[i]
        != '/' by {
        assert(share.contains(share[i]));
    }
    if s == 1 {
        assert(server[0] != '.') by {
            if server[0] == '.' {
                assert(server =~= "."@);
            }
        }
        assert(server[0] != '?') by {
            if server[0] == '?' {
                assert(server =~= "?"@);
            }
        }
    } else {
        assert(server[1] != '\\');
    }
    assert(path[2] == server[0] && bare[2] == server[0] && alone[2] == server[0]);
    assert(s > 1 ==> path[3] == server[1] && bare[3] == server[1] && alone[3] == server[1]);
    assert(!is_verbatim(path) && !is_verbatim(bare) && !is_verbatim(alone));
    assert forall|i: int| 2 <= i < s + 2 implies !is_separator(false, #[trigger] path[i]) by {
        assert(path[i] == server[i - 2]);
    }
    assert forall|i: int| 2 <= i < s + 2 implies !is_separator(false, #[trigger] bare[i]) by {
        assert(bare[i] == server[i - 2]);
    }
    assert forall|i: int| 2 <= i < s + 2 implies !is_separator(false, #[trigger] alone[i]) by {
        assert(alone[i] == server[i - 2]);
    }
    assert forall|i: int| s + 3 <= i < n implies !is_separator(false, #[trigger] path[i]) by {
        assert(path[i] == share[i - s - 3]);
    }
    assert(path[s + 2] == '\\' && bare[s + 2] == '\\');
    lemma_next_at(path, 2, s + 2);
    lemma_next_at(bare, 2, s + 2);
    lemma_next_at(alone, 2, s + 2);
    if rest.len() > 0 {
        assert(path[n] == rest[0]);
        assert(bare[s + 3] == rest[0]);
    }
    lemma_next_at(path, s + 3, n);
    lemma_next_at(bare, s + 3, s + 3);
}

/// A device is a prefix, and so is the first name of a verbatim path, or its server and
/// share. Of a verbatim drive the case of the letter does not count.
pub proof fn lemma_special_prefixes(
    name: Seq<char>,
    rest: Seq<char>,
    small: char,
    large: char,
)
    requires
        is_whole(name),
        name != "UNC"@,
        rest.len() == 0 || rest[0] == '\\',
        'a' <= small <= 'z',
        'A' <= large <= 'Z',
        small as u32 == large as u32 + 32,
    ensures
        prefix_len(seq!['\\', '\\', '.', '\\'] + name + rest) == name.len() + 4,
        prefix_len(seq!['\\', '\\', '?', '\\'] + name + rest) == name.len() + 4,
        windows_components(seq!['\\', '\\', '?', '\\'] + seq![small, ':'] + rest)
            == windows_components(seq!['\\', '\\', '?', '\\'] + seq![large, ':'] + rest),
{
    reveal_strlit("UNC");
    let device = seq!['\\', '\\', '.', '\\'] + name + rest;
    let spelled = seq!['\\', '\\', '?', '\\'] + name + rest;
    let n = name.len() + 4int;
    assert forall|i: int| 0 <= i < name.len() implies #[trigger] name[i] != '\\' && name[i]
        != '/' by {
        assert(name.contains(name[i]));
    }
    assert forall|i: int| 4 <= i < n implies device[i] == name[i - 4] && spelled[i] == name[i
        - 4] by {}
    assert(!is_verbatim(device) && is_verbatim(spelled));
    if rest.len() > 0 {
        assert(device[n] == rest[0] && spelled[n] == rest[0]);
    }
    assert forall|i: int| 4 <= i < n implies !is_separator(false, #[trigger] device[i]) by {
        assert(device[i] == name[i - 4]);
    }
    assert forall|i: int| 4 <= i < n implies !is_separator(true, #[trigger] spelled[i]) by {
        assert(spelled[i] == name[i - 4]);
    }
    lemma_next_at(device, 2, 3);
    lemma_next_at(device, 4, n);
    lemma_next_at(spelled, 2, 3);
    lemma_next_at(spelled, 4, n);
    assert(spelled.subrange(4, n) =~= name);
    lemma_verbatim_drive(small, rest);
    lemma_verbatim_drive(large, rest);
    assert(upper(small) == large);
}

proof fn lemma_verbatim_drive(letter: char, rest: Seq<char>)
    requires
        is_letter(letter),
        rest.len() == 0 || rest[0] == '\\',
    ensures
        ({
            let path = seq!['\\', '\\', '?', '\\'] + seq![letter, ':'] + rest;
            &&& prefix_len(path) == 6
            &&& prefix_component(path) == seq!['/', '2', upper(letter)]
            &&& body(path) == unified(true, rest)
        }),
{
    reveal_strlit("UNC");
    let path = seq!['\\', '\\', '?', '\\'] + seq![letter, ':'] + rest;
    assert(is_verbatim(path));
    assert(path[4] == letter && path[5] == ':');
    if rest.len() > 0 {
        assert(path[6] == rest[0]);
    }
    lemma_next_at(path, 2, 3);
    lemma_next_at(path, 4, 6);
    assert(path.subrange(4, 6).len() == 2);
    assert("UNC"@.len() == 3);
    assert(path.skip(4)[0] == letter && path.skip(4)[1] == ':');
    assert(path.skip(6) =~= rest);
}

/// A server and its share in a verbatim path are one prefix.
pub proof fn lemma_verbatim_share(server: Seq<char>, share: Seq<char>, rest: Seq<char>)
    requires
        is_whole(server),
        is_whole(share),
        rest.len() == 0 || rest[0] == '\\',
    ensures
        prefix_len(
            seq!['\\', '\\', '?', '\\', 'U', 'N', 'C', '\\'] + server.push('\\') + share + rest,
        ) == server.len() + share.len() + 9,
{
    reveal_strlit("UNC");
    let path = seq!['\\', '\\', '?', '\\', 'U', 'N', 'C', '\\'] + server.push('\\') + share + rest;
    let s = server.len() as int;
    let n = s + share.len() + 9;
    assert(is_verbatim(path));
    assert forall|i: int| 8 <= i < s + 8 implies !is_separator(true, #[trigger] path[i]) by {
        assert(path[i] == server[i - 8]);
        assert(server.contains(server[i - 8]));
    }
    assert forall|i: int| s + 9 <= i < n implies !is_separator(true, #[trigger] path[i]) by {
        assert(path[i] == share[i - s - 9]);
        assert(share.contains(share[i - s - 9]));
    }
    assert(path[s + 8] == '\\');
    if rest.len() > 0 {
        assert(path[n] == rest[0]);
    }
    lemma_next_at(path, 2, 3);
    lemma_next_at(path, 4, 7);
    assert(path.subrange(4, 7) =~= "UNC"@);
    lemma_next_at(path, 8, s + 8);
    lemma_next_at(path, s + 9, n);
}

/// Each step leads on from where those before it led: a name into it, the parent directory
/// out of the last name, the current directory nowhere, and the root to the start.
pub proof fn lemma_walked(names: Seq<Seq<char>>, steps: Seq<Seq<char>>, name: Seq<char>)
    requires
        name != "/"@,
        name != "."@,
        name != ".."@,
    ensures
        walked(names, seq![]) == names,
        walked(names, steps.push(name)) == walked(names, steps).push(name),
        walked(names, steps.push("."@)) == walked(names, steps),
        walked(names, steps.push("/"@)).len() == 0,
        walked(names, steps.push(name).push(".."@)) == walked(names, steps),
        walked(names, steps).len() == 0 ==> walked(names, steps.push(".."@)).len() == 0,
        walked(names, steps).len() > 0 && walked(names, steps).last() == ".."@ ==> walked(
            names,
            steps.push(".."@),
        ) == walked(names, steps),
{
    reveal_strlit("/");
    reveal_strlit(".");
    reveal_strlit("..");
    assert("/"@[0] == '/' && "."@[0] == '.' && ".."@[0] == '.');
    assert("."@.len() == 1 && ".."@.len() == 2 && "/"@.len() == 1);
    assert(steps.push(name).drop_last() =~= steps);
    assert(steps.push("."@).drop_last() =~= steps);
    assert(steps.push("/"@).drop_last() =~= steps);
    assert(steps.push(".."@).drop_last() =~= steps);
    let both = steps.push(name).push(".."@);
    assert(both.drop_last() =~= steps.push(name));
    assert(walked(names, steps.push(name)).drop_last() =~= walked(names, steps));
}

/// The names with slashes between them, spelled with backslashes.
proof fn lemma_unified_names(list: Seq<Seq<char>>)
    requires
        forall|i: int| 0 <= i < list.len() ==> is_whole(#[trigger] list[i]),
    ensures
        unified(false, joined(list, '\\')) == joined(list, '/'),
        joined(list, '\\').len() == joined(list, '/').len(),
    decreases list.len(),
{
    if list.len() > 0 {
        let last = list.last();
        assert(is_whole(list[list.len() - 1]));
        assert(unified(false, last) =~= last) by {
            assert forall|i: int| 0 <= i < last.len() implies unified_char(
                false,
                #[trigger] last[i],
            ) == last[i] by {
                assert(last.contains(last[i]));
            }
        }
        if list.len() > 1 {
            let front = list.drop_last();
            assert forall|i: int| 0 <= i < front.len() implies is_whole(#[trigger] front[i]) by {
                assert(front[i] == list[i]);
            }
            lemma_unified_names(front);
            let before = joined(front, '\\');
            assert(joined(list, '\\') == before.push('\\') + last);
            assert(unified(false, before.push('\\') + last) =~= unified(false, before).push('/')
                + unified(false, last));
        } else {
            assert(joined(list, '\\') == last);
        }
    } else {
        assert(unified(false, joined(list, '\\')) =~= joined(list, '/'));
    }
}

/// By the rules of Windows, what stands behind a directory on a drive is what is left of
/// the path below it, as it is spelled.
pub proof fn lemma_below_drive(base: Seq<char>, list: Seq<Seq<char>>)
    requires
        has_drive(base),
        base.len() > 2,
        list.len() > 0,
        forall|i: int|
            0 <= i < list.len() ==> is_whole(#[trigger] list[i]) && list[i] != "."@,
    ensures
        below_by(base.push('\\') + joined(list, '\\'), base, PathRules::Windows) == Some(
            joined(list, '\\'),
        ),
{
    let tail = joined(list, '\\');
    let path = base.push('\\') + tail;
    let dir = unified(false, base.skip(2));
    lemma_unified_names(list);
    assert forall|i: int| 0 <= i < list.len() implies is_name(#[trigger] list[i]) by {
        assert(is_whole(list[i]));
    }
    assert(path[0] == base[0] && path[1] == base[1]);
    assert(!is_verbatim(path) && !is_verbatim(base));
    assert(path.skip(2) =~= base.skip(2).push('\\') + tail);
    assert(unified(false, path.skip(2)) =~= dir.push('/') + unified(false, tail));
    assert(body(path) == dir.push('/') + joined(list, '/'));
    assert(body(base) == dir);
    lemma_rest_directory(dir, list);
    let n = components(dir).len();
    let a = windows_components(base);
    let b = windows_components(path);
    assert(prefix_component(path) == prefix_component(base));
    assert(a == seq![prefix_component(base)] + components(dir));
    assert(b == seq![prefix_component(path)] + (components(dir) + list));
    assert(a.is_prefix_of(b)) by {
        assert(b.subrange(0, a.len() as int) =~= a);
    }
    assert(a.len() == n + 1);
    let start = base.len() + 1int;
    assert(path.subrange(start, start + tail.len()) =~= tail);
}

/// By the rules of Windows, a path on a share stays whatever the directory is; and a share
/// is the same with and without a separator behind it.
pub proof fn lemma_share_paths(
    base: Seq<char>,
    server: Seq<char>,
    share: Seq<char>,
    rest: Seq<char>,
)
    requires
        is_whole(server),
        is_whole(share),
        server != "."@,
        server != "?"@,
        rest.len() == 0 || rest[0] == '\\' || rest[0] == '/',
    ensures
        ({
            let root = seq!['\\', '\\'] + server.push('\\') + share;
            &&& windows_joined(base, root + rest) == root + rest
            &&& windows_components(root.push('\\')) == windows_components(root)
            &&& windows_components(root).len() == 2
            &&& windows_components(root)[1] == "/"@
        }),
{
    let root = seq!['\\', '\\'] + server.push('\\') + share;
    let none: Seq<char> = seq![];
    let one = seq!['\\'];
    let slashed = root.push('\\');
    lemma_share_prefix(server, share, rest);
    lemma_share_prefix(server, share, none);
    lemma_share_prefix(server, share, one);
    assert(root + none =~= root);
    assert(root + one =~= slashed);
    let n = prefix_len(root);
    assert(n == root.len());
    assert(prefix_len(slashed) == n);
    assert(root[2] == server[0] && slashed[2] == server[0]);
    assert(!server.contains('\\'));
    assert(server.contains(server[0]));
    if server.len() > 1 {
        assert(server.contains(server[1]));
        assert(root[3] == server[1] && slashed[3] == server[1]);
    } else {
        reveal_strlit("?");
        if server[0] == '?' {
            assert(server =~= "?"@);
        }
    }
    assert(!is_verbatim(root) && !is_verbatim(slashed));
    assert(slashed.take(n) =~= root.take(n));
    assert(root.skip(n).len() == 0);
    assert(slashed.skip(n) =~= one);
    assert(body(slashed) =~= seq!['/']);
    lemma_root_components();
    lemma_dot_server(root, slashed, server);
    assert(prefix_component(slashed) == prefix_component(root));
    assert(seq![prefix_component(root)] + seq!["/"@] =~= seq![prefix_component(root), "/"@]);
}

proof fn lemma_root_components()
    ensures
        components(seq!['/']) == seq!["/"@],
{
    let root = seq!['/'];
    let none: Seq<char> = seq![];
    reveal_with_fuel(pieces, 2);
    reveal_with_fuel(names, 3);
    assert(root.drop_last() =~= none);
    assert(pieces(root, '/') =~= seq![none, none]);
    assert(seq![none, none].drop_last() =~= seq![none]);
    assert(seq![none].drop_last() =~= seq![]);
    assert(names(pieces(root, '/')) =~= seq![]);
    assert(components(root) =~= seq!["/"@]);
}

/// Neither path is one of a device.
proof fn lemma_dot_server(a: Seq<char>, b: Seq<char>, server: Seq<char>)
    requires
        is_whole(server),
        server != "."@,
        a.len() > server.len() + 2,
        b.len() > server.len() + 2,
        !is_verbatim(a),
        !is_verbatim(b),
        forall|i: int| 0 <= i < server.len() ==> a[i + 2] == #[trigger] server[i] && b[i + 2]
            == server[i],
        a[server.len() + 2int] == '\\',
        b[server.len() + 2int] == '\\',
    ensures
        !(a[2] == '.' && next_separator(a, 2) == 3),
        !(b[2] == '.' && next_separator(b, 2) == 3),
{
    reveal_strlit(".");
    let s = server.len() as int;
    assert forall|i: int| 2 <= i < s + 2 implies !is_separator(false, #[trigger] a[i])
        && !is_separator(false, b[i]) by {
        assert(a[i] == server[i - 2]);
        assert(server.contains(server[i - 2]));
    }
    assert forall|i: int| 2 <= i < s + 2 implies !is_separator(false, #[trigger] b[i]) by {
        assert(!is_separator(false, a[i]) && !is_separator(false, b[i]));
    }
    lemma_next_at(a, 2, s + 2);
    lemma_next_at(b, 2, s + 2);
    if s == 1 {
        assert(a[2] == server[0] && b[2] == server[0]);
        if server[0] == '.' {
            assert(server =~= "."@);
        }
    }
}

proof fn lemma_walked_names(first: Seq<Seq<char>>, more: Seq<Seq<char>>)
    requires
        forall|i: int|
            0 <= i < more.len() ==> #[trigger] more[i] != "/"@ && more[i] != "."@ && more[i]
                != ".."@,
    ensures
        walked(first, more) == first + more,
    decreases more.len(),
{
    if more.len() == 0 {
        assert(first + more =~= first);
    } else {
        let front = more.drop_last();
        assert forall|i: int| 0 <= i < front.len() implies #[trigger] front[i] != "/"@ && front[i]
            != "."@ && front[i] != ".."@ by {
            assert(front[i] == more[i]);
        }
        lemma_walked_names(first, front);
        assert(more[more.len() - 1] == more.last());
        assert((first + front).push(more.last()) =~= first + more);
    }
}

proof fn lemma_joined_lists(a: Seq<Seq<char>>, b: Seq<Seq<char>>, c: char)
    requires
        a.len() > 0,
        b.len() > 0,
    ensures
        joined(a + b, c) == joined(a, c).push(c) + joined(b, c),
    decreases b.len(),
{
    let all = a + b;
    assert(all.last() == b.last());
    if b.len() == 1 {
        assert(all.drop_last() =~= a);
        assert(b.last() == b[0]);
    } else {
        let front = b.drop_last();
        lemma_joined_lists(a, front, c);
        assert(all.drop_last() =~= a + front);
        assert(joined(all, c) =~= joined(a, c).push(c) + joined(b, c));
    }
}

/// A path of names seen from a verbatim directory on a drive stands behind it, parted by
/// backslashes, however it is written.
pub proof fn lemma_verbatim_joined(letter: char, list: Seq<Seq<char>>, more: Seq<Seq<char>>)
    requires
        is_letter(letter),
        list.len() > 0,
        more.len() > 0,
        forall|i: int| 0 <= i < list.len() ==> is_whole(#[trigger] list[i]) && list[i] != "."@,
        forall|i: int|
            0 <= i < more.len() ==> is_whole(#[trigger] more[i]) && more[i] != "."@ && more[i]
                != ".."@,
        !has_drive(joined(more, '/')),
    ensures
        ({
            let base = seq!['\\', '\\', '?', '\\'] + seq![letter, ':'] + (seq!['\\'] + joined(
                list,
                '\\',
            ));
            &&& windows_joined(base, joined(more, '/')) == base.push('\\') + joined(more, '\\')
            &&& windows_joined(base, joined(more, '\\')) == base.push('\\') + joined(more, '\\')
        }),
{
    reveal_strlit("/");
    let inside = seq!['\\'] + joined(list, '\\');
    let base = seq!['\\', '\\', '?', '\\'] + seq![letter, ':'] + inside;
    lemma_verbatim_drive(letter, inside);
    lemma_swapped_names(list);
    assert(unified(true, inside) =~= seq!['/'] + joined(list, '/'));
    assert forall|i: int| 0 <= i < list.len() implies is_name(#[trigger] list[i]) by {
        assert(is_whole(list[i]));
    }
    assert forall|i: int| 0 <= i < more.len() implies is_name(#[trigger] more[i]) && more[i]
        != "/"@ by {
        assert(is_whole(more[i]));
        if more[i] == "/"@ {
            assert(more[i][0] == '/');
            assert(more[i].contains('/'));
        }
    }
    let written = |name: Seq<char>| unified(true, name);
    let inner = names(pieces(body(base), '/')).map_values(written);
    lemma_rooted_names(list);
    assert(names(pieces(body(base), '/')) == list);
    assert(inner =~= list) by {
        assert forall|i: int| 0 <= i < list.len() implies unified(true, #[trigger] list[i])
            == list[i] by {
            assert(is_whole(list[i]));
            lemma_unified_whole(list[i]);
        }
    }
    lemma_components_are_names(more);
    lemma_unified_names(more);
    lemma_unified_slashes(more);
    lemma_walked_names(list, more);
    lemma_joined_lists(list, more, '\\');
    assert(base.take(6) =~= seq!['\\', '\\', '?', '\\'] + seq![letter, ':']);
    let result = base.take(6).push('\\') + joined(list + more, '\\');
    assert(result =~= base.push('\\') + joined(more, '\\'));
    lemma_names_plain(more, '/');
    lemma_names_plain(more, '\\');
    assert(joined(more, '\\').len() >= 2 ==> (has_drive(joined(more, '\\')) == has_drive(
        joined(more, '/'),
    ))) by {
        let x = joined(more, '\\');
        let y = joined(more, '/');
        assert(y == unified(false, x));
        if x.len() >= 2 {
            assert(y[0] == unified_char(false, x[0]) && y[1] == unified_char(false, x[1]));
        }
    }
}

proof fn lemma_unified_whole(name: Seq<char>)
    requires
        is_whole(name),
    ensures
        unified(true, name) == name,
        unified(false, name) == name,
{
    assert forall|i: int| 0 <= i < name.len() implies #[trigger] name[i] != '\\' && name[i]
        != '/' by {
        assert(name.contains(name[i]));
    }
    assert(unified(true, name) =~= name);
    assert(unified(false, name) =~= name);
}

/// In a verbatim path, too, the separator between names is the backslash.
proof fn lemma_swapped_names(list: Seq<Seq<char>>)
    requires
        forall|i: int| 0 <= i < list.len() ==> is_whole(#[trigger] list[i]),
    ensures
        unified(true, joined(list, '\\')) == joined(list, '/'),
    decreases list.len(),
{
    if list.len() > 0 {
        let last = list.last();
        assert(is_whole(list[list.len() - 1]));
        lemma_unified_whole(last);
        if list.len() > 1 {
            let front = list.drop_last();
            assert forall|i: int| 0 <= i < front.len() implies is_whole(#[trigger] front[i]) by {
                assert(front[i] == list[i]);
            }
            lemma_swapped_names(front);
            let before = joined(front, '\\');
            assert(unified(true, before.push('\\') + last) =~= unified(true, before).push('/')
                + unified(true, last));
        } else {
            assert(joined(list, '\\') == last);
        }
    } else {
        assert(unified(true, joined(list, '\\')) =~= joined(list, '/'));
    }
}

proof fn lemma_unified_slashes(list: Seq<Seq<char>>)
    requires
        forall|i: int| 0 <= i < list.len() ==> is_whole(#[trigger] list[i]),
    ensures
        unified(false, joined(list, '/')) == joined(list, '/'),
{
    lemma_unified_names(list);
    let text = joined(list, '/');
    let spelled = joined(list, '\\');
    assert forall|i: int| 0 <= i < text.len() implies unified_char(false, #[trigger] text[i])
        == text[i] by {
        assert(text[i] == unified(false, spelled)[i]);
        assert(text[i] == unified_char(false, spelled[i]));
    }
    assert(unified(false, text) =~= text);
}

/// The names of a path from the root.
proof fn lemma_rooted_names(list: Seq<Seq<char>>)
    requires
        list.len() > 0,
        forall|i: int| 0 <= i < list.len() ==> is_name(#[trigger] list[i]),
    ensures
        names(pieces(seq!['/'] + joined(list, '/'), '/')) == list,
{
    reveal_strlit("/");
    let path = seq!['/'] + joined(list, '/');
    lemma_components_are_names(list);
    assert("/"@ + joined(list, '/') =~= path);
    assert(components(path) == seq!["/"@] + list);
    assert(lead(path) == seq!["/"@]);
    assert(components(path).skip(1) =~= names(pieces(path, '/')));
    assert((seq!["/"@] + list).skip(1) =~= list);
}

/// Joined names start with a character of the first of them, which is no separator.
proof fn lemma_names_plain(list: Seq<Seq<char>>, c: char)
    requires
        list.len() > 0,
        forall|i: int| 0 <= i < list.len() ==> is_whole(#[trigger] list[i]),
    ensures
        joined(list, c).len() > 0,
        joined(list, c)[0] == list[0][0],
        joined(list, c)[0] != '\\',
        joined(list, c)[0] != '/',
    decreases list.len(),
{
    assert(is_whole(list[0]));
    assert(list[0].contains(list[0][0]));
    if list.len() > 1 {
        let front = list.drop_last();
        assert forall|i: int| 0 <= i < front.len() implies is_whole(#[trigger] front[i]) by {
            assert(front[i] == list[i]);
        }
        lemma_names_plain(front, c);
        assert(front[0] == list[0]);
    }
}

} // verus!
