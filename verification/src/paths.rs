//! Paths by the rules of Unix, and the search for a profile's files in the workspace.

use crate::config::PathMappingConfig;
use crate::rules::below_by;
use crate::rules::ends_with_by;
use crate::rules::is_plain;
use crate::rules::is_plain_path;
use crate::rules::join_paths_by;
use crate::rules::joined_by;
use crate::rules::path_below_by;
use crate::rules::path_ends_with;
use crate::rules::PathRules;
use crate::text::begins_with;
use crate::text::join_text;
use crate::text::joined;
use crate::text::lemma_joined_pieces;
use crate::text::lemma_pieces_concat;
use crate::text::lemma_pieces_free;
use crate::text::lemma_pieces_joined;
use crate::text::lemma_pieces_some;
use crate::text::lemma_pieces_whole;
use crate::text::pieces;
use crate::text::same_text;
use crate::text::split_text;
use crate::text::text_between;
use crate::text::to_chars;
use vstd::hash_map::StringHashMap;
use vstd::prelude::*;

verus! {

/// A piece of a path that names something.
pub open spec fn significant(piece: Seq<char>) -> bool {
    piece.len() > 0 && piece != "."@
}

/// What a path starts with before its names: the root, or the current directory.
pub open spec fn lead(path: Seq<char>) -> Seq<Seq<char>> {
    if path.len() > 0 && path[0] == '/' {
        seq!["/"@]
    } else if pieces(path, '/')[0] == "."@ {
        seq!["."@]
    } else {
        seq![]
    }
}

/// The names among the pieces of a path.
pub open spec fn names(parts: Seq<Seq<char>>) -> Seq<Seq<char>>
    decreases parts.len(),
{
    if parts.len() == 0 {
        seq![]
    } else if significant(parts.last()) {
        names(parts.drop_last()).push(parts.last())
    } else {
        names(parts.drop_last())
    }
}

/// The components of a path: repeated and final separators, and the current directory
/// anywhere but at the start, do not count.
pub open spec fn components(path: Seq<char>) -> Seq<Seq<char>> {
    lead(path) + names(pieces(path, '/'))
}

/// `path` seen from the directory `base`.
pub open spec fn joined_path(base: Seq<char>, path: Seq<char>) -> Seq<char> {
    if path.len() > 0 && path[0] == '/' {
        path
    } else if base.len() == 0 || base.last() == '/' {
        base + path
    } else {
        base.push('/') + path
    }
}

/// The pieces without the first `n` names and what stands before the next one.
pub open spec fn after_names(parts: Seq<Seq<char>>, n: nat) -> Seq<Seq<char>>
    decreases parts.len(),
{
    if parts.len() == 0 {
        parts
    } else if !significant(parts[0]) {
        after_names(parts.skip(1), n)
    } else if n == 0 {
        parts
    } else {
        after_names(parts.skip(1), (n - 1) as nat)
    }
}

/// The pieces up to the last name.
pub open spec fn up_to_name(parts: Seq<Seq<char>>) -> Seq<Seq<char>>
    decreases parts.len(),
{
    if parts.len() == 0 || significant(parts.last()) {
        parts
    } else {
        up_to_name(parts.drop_last())
    }
}

/// What is left of `path` behind its first `n` components.
pub open spec fn rest_after(path: Seq<char>, n: nat) -> Seq<char> {
    let parts = pieces(path, '/');
    if n > 0 {
        joined(up_to_name(after_names(parts, (n - lead(path).len()) as nat)), '/')
    } else if up_to_name(parts).len() > 0 {
        joined(up_to_name(parts), '/')
    } else {
        joined(lead(path), '/')
    }
}

/// Where in `path` that starts.
pub open spec fn rest_start(path: Seq<char>, n: nat) -> int {
    let parts = pieces(path, '/');
    if n > 0 {
        path.len() - joined(after_names(parts, (n - lead(path).len()) as nat), '/').len()
    } else {
        0
    }
}

/// What is left of `path` below the directory `base`, where it lies there.
pub open spec fn below(path: Seq<char>, base: Seq<char>) -> Option<Seq<char>> {
    let outer = components(base);
    if outer.is_prefix_of(components(path)) {
        Some(rest_after(path, outer.len()))
    } else {
        None
    }
}

pub(crate) fn is_significant(piece: &str) -> (r: bool)
    ensures
        r == significant(piece@),
{
    !piece.is_empty() && !same_text(piece, ".")
}

/// The components of a path.
pub fn split_components(path: &str) -> (r: Vec<String>)
    ensures
        r.deep_view() == components(path@),
{
    let chars: Vec<char> = to_chars(path);
    let parts: Vec<String> = split_text(path, '/');
    let ghost all = pieces(path@, '/');
    let mut r: Vec<String> = Vec::new();
    proof {
        lemma_pieces_some(path@, '/');
        assert(all[0] == parts@[0]@);
        assert(all.take(0) =~= seq![]);
    }
    if chars.len() > 0 && chars[0] == '/' {
        r.push("/".to_string());
    } else if same_text(parts[0].as_str(), ".") {
        r.push(".".to_string());
    }
    assert(r.deep_view() =~= lead(path@));
    assert(lead(path@) + names(all.take(0)) =~= lead(path@));
    let mut i: usize = 0;
    while i < parts.len()
        invariant
            i <= parts@.len(),
            all == parts.deep_view(),
            r.deep_view() == lead(path@) + names(all.take(i as int)),
        decreases parts.len() - i,
    {
        let ghost t = all.take(i + 1);
        let ghost before = r.deep_view();
        assert(t.drop_last() =~= all.take(i as int));
        assert(t.last() == parts@[i as int]@);
        if is_significant(parts[i].as_str()) {
            r.push(parts[i].as_str().to_string());
            assert(r.deep_view() =~= before.push(parts@[i as int]@));
            assert(r.deep_view() =~= lead(path@) + names(t));
        }
        i += 1;
    }
    assert(all.take(i as int) =~= all);
    r
}

/// Whether the texts from `start` on begin with all of `texts`.
pub(crate) fn matches_at(all: &Vec<String>, start: usize, texts: &Vec<String>) -> (r: bool)
    requires
        start + texts@.len() <= all@.len(),
    ensures
        r == (texts.deep_view() == all.deep_view().subrange(
            start as int,
            start + texts@.len(),
        )),
{
    let ghost part = all.deep_view().subrange(start as int, start + texts@.len());
    let count: usize = all.len();
    let mut i: usize = 0;
    while i < texts.len()
        invariant
            i <= texts@.len(),
            start + texts@.len() <= count == all@.len(),
            part == all.deep_view().subrange(start as int, start + texts@.len()),
            forall|k: int| 0 <= k < i ==> texts.deep_view()[k] == part[k],
        decreases texts.len() - i,
    {
        if !same_text(texts[i].as_str(), all[start + i].as_str()) {
            assert(texts.deep_view()[i as int] != part[i as int]);
            return false;
        }
        assert(texts.deep_view()[i as int] == part[i as int]);
        i += 1;
    }
    assert(texts.deep_view() =~= part);
    true
}

/// `path` seen from the directory `base`.
pub fn join_paths(base: &str, path: &str) -> (r: String)
    ensures
        r@ == joined_path(base@, path@),
{
    let tail: Vec<char> = to_chars(path);
    if tail.len() > 0 && tail[0] == '/' {
        return path.to_string();
    }
    let head: Vec<char> = to_chars(base);
    let mut r: String = base.to_string();
    if head.len() > 0 && head[head.len() - 1] != '/' {
        r.push('/');
    }
    r.push_str(path);
    r
}

/// A part of the pieces is not longer than all of them.
proof fn lemma_joined_part(parts: Seq<Seq<char>>, start: int, end: int)
    requires
        0 <= start <= end <= parts.len(),
    ensures
        joined(parts.subrange(start, end), '/').len() <= joined(parts, '/').len(),
    decreases parts.len(),
{
    reveal_with_fuel(joined, 2);
    if start == 0 && end == parts.len() {
        assert(parts.subrange(start, end) =~= parts);
    } else if start == end {
        assert(parts.subrange(start, end) =~= seq![]);
    } else if end < parts.len() {
        let front = parts.drop_last();
        lemma_joined_part(front, start, end);
        assert(front.subrange(start, end) =~= parts.subrange(start, end));
    } else {
        let part = parts.subrange(start, end);
        let front = parts.drop_last();
        lemma_joined_part(front, start, end - 1);
        assert(front.subrange(start, end - 1) =~= part.drop_last());
        assert(part.last() == parts.last());
    }
}

/// What is left of a path behind its first components, and where it starts.
pub fn path_rest(path: &str, n: usize) -> (r: (String, usize))
    requires
        n <= components(path@).len(),
    ensures
        r.0@ == rest_after(path@, n as nat),
        r.1 == rest_start(path@, n as nat),
        r.1 + r.0@.len() <= path@.len(),
{
    let chars: Vec<char> = to_chars(path);
    let parts: Vec<String> = split_text(path, '/');
    let ghost whole = pieces(path@, '/');
    proof {
        lemma_pieces_some(path@, '/');
        lemma_joined_pieces(path@, '/');
        assert(parts.deep_view().len() == parts@.len());
        assert(whole[0] == parts@[0]@);
    }
    let leading: bool = chars.len() > 0 && chars[0] == '/' || same_text(parts[0].as_str(), ".");
    let mut start: usize = 0;
    if n > 0 {
        let mut left: usize = if leading {
            n - 1
        } else {
            n
        };
        let ghost wanted = after_names(whole, left as nat);
        assert(left == n - lead(path@).len());
        assert(whole.skip(0) =~= whole);
        while start < parts.len() && (left > 0 || !is_significant(parts[start].as_str()))
            invariant
                start <= parts@.len(),
                whole == parts.deep_view(),
                wanted == after_names(whole.skip(start as int), left as nat),
            decreases parts.len() - start,
        {
            let ghost t = whole.skip(start as int);
            assert(t[0] == parts@[start as int]@);
            assert(t.skip(1) =~= whole.skip(start + 1));
            if is_significant(parts[start].as_str()) {
                left -= 1;
            }
            start += 1;
        }
        proof {
            if start < parts@.len() {
                assert(whole.skip(start as int)[0] == parts@[start as int]@);
            }
            assert(wanted == whole.skip(start as int));
        }
    }
    let ghost rest = whole.skip(start as int);
    let mut end: usize = parts.len();
    assert(whole.subrange(start as int, end as int) =~= rest);
    while end > start && !is_significant(parts[end - 1].as_str())
        invariant
            start <= end <= parts@.len(),
            whole == parts.deep_view(),
            up_to_name(rest) == up_to_name(whole.subrange(start as int, end as int)),
        decreases end,
    {
        let ghost t = whole.subrange(start as int, end as int);
        assert(t.last() == parts@[end - 1]@);
        assert(t.drop_last() =~= whole.subrange(start as int, end - 1));
        end -= 1;
    }
    proof {
        let t = whole.subrange(start as int, end as int);
        if end > start {
            assert(t.last() == parts@[end - 1]@);
        }
        assert(up_to_name(rest) == t);
    }
    if n == 0 && end == 0 {
        let mut r: String = String::new();
        proof {
            assert(whole.skip(0) =~= whole);
            reveal_strlit("/");
            reveal_strlit(".");
            reveal_with_fuel(joined, 2);
        }
        if chars.len() > 0 && chars[0] == '/' {
            r.push_str("/");
        } else if same_text(parts[0].as_str(), ".") {
            r.push_str(".");
            proof {
                lemma_joined_part(whole, 0, 1);
                assert(whole.subrange(0, 1) =~= seq!["."@]);
            }
        }
        assert(r@ =~= joined(lead(path@), '/'));
        return (r, 0);
    }
    let text: String = join_text(&parts, start, end, '/');
    if n == 0 {
        proof {
            assert(whole.skip(0) =~= whole);
            lemma_joined_part(whole, 0, end as int);
        }
        return (text, 0);
    }
    let tail: String = join_text(&parts, start, parts.len(), '/');
    let tail_chars: Vec<char> = to_chars(tail.as_str());
    proof {
        lemma_joined_part(whole, start as int, whole.len() as int);
        lemma_joined_part(rest, 0, end - start);
        assert(rest.subrange(0, end - start) =~= whole.subrange(start as int, end as int));
        assert(whole.subrange(start as int, whole.len() as int) =~= rest);
    }
    (text, chars.len() - tail_chars.len())
}

/// What is left of `path` below the directory `base`, where it lies there.
pub fn path_below(path: &str, base: &str) -> (r: Option<String>)
    ensures
        text_of(r) == below(path@, base@),
{
    let all: Vec<String> = split_components(path);
    let outer: Vec<String> = split_components(base);
    proof {
        assert(all.deep_view().len() == all@.len());
        assert(outer.deep_view().len() == outer@.len());
        if outer@.len() <= all@.len() {
            assert(all.deep_view().subrange(0, outer@.len() as int) =~= all.deep_view().take(
                outer@.len() as int,
            ));
        }
    }
    if outer.len() > all.len() || !matches_at(&all, 0, &outer) {
        return None;
    }
    Some(path_rest(path, outer.len()).0)
}

/// `s` without the separators that it starts with.
pub open spec fn without_leading(s: Seq<char>) -> Seq<char>
    decreases s.len(),
{
    if s.len() > 0 && s[0] == '/' {
        without_leading(s.skip(1))
    } else {
        s
    }
}

/// What a `PathResolver` holds.
#[verifier::ext_equal]
pub struct ResolverModel {
    /// Whose rules the paths follow.
    pub rules: PathRules,
    /// The root of the workspace.
    pub root: Seq<char>,
    pub trim_prefix: Seq<char>,
    pub source_root: Seq<char>,
    /// The Go files of the workspace.
    pub go_files: Seq<Seq<char>>,
    /// What each path that was asked for was resolved to.
    pub cache: Map<Seq<char>, Option<Seq<char>>>,
}

/// A path that starts at the root.
pub open spec fn is_absolute(path: Seq<char>) -> bool {
    path.len() > 0 && path[0] == '/'
}

/// The path seen from the workspace, where it lies there: a path with a prefix or a root
/// by what is left of it below the root of the workspace, any other as it is.
pub open spec fn within(m: ResolverModel, path: Seq<char>) -> Seq<Seq<char>> {
    if is_plain(path, m.rules) {
        seq![path]
    } else {
        match below_by(joined_by(m.root, path, m.rules), m.root, m.rules) {
            Some(rest) => if is_plain(rest, m.rules) {
                seq![rest]
            } else {
                seq![]
            },
            None => seq![],
        }
    }
}

/// The paths, seen from the workspace, at which the file may lie, in the order in which
/// they are tried: the path itself; the path without the prefix; and that below the
/// source root. Paths outside of the workspace are left out.
pub open spec fn candidates(m: ResolverModel, path: Seq<char>) -> Seq<Seq<char>> {
    if m.trim_prefix.len() > 0 && m.trim_prefix.is_prefix_of(path) {
        let trimmed = without_leading(path.skip(m.trim_prefix.len() as int));
        if m.source_root.len() > 0 {
            within(m, path) + within(m, trimmed) + within(
                m,
                joined_by(m.source_root, trimmed, m.rules),
            )
        } else {
            within(m, path) + within(m, trimmed)
        }
    } else {
        within(m, path)
    }
}

/// The first of the paths that exists.
pub open spec fn first_existing(paths: Seq<Seq<char>>, existing: Seq<Seq<char>>) -> Option<
    Seq<char>,
>
    decreases paths.len(),
{
    if paths.len() == 0 {
        None
    } else if existing.contains(paths[0]) {
        Some(paths[0])
    } else {
        first_existing(paths.skip(1), existing)
    }
}

/// The first of the files whose components are the last ones of `path`.
pub open spec fn first_suffix(
    files: Seq<Seq<char>>,
    path: Seq<char>,
    rules: PathRules,
) -> Option<Seq<char>>
    decreases files.len(),
{
    if files.len() == 0 {
        None
    } else if ends_with_by(path, files[0], rules) {
        Some(files[0])
    } else {
        first_suffix(files.skip(1), path, rules)
    }
}

/// The file of the workspace that `path` names, without regard to the cache.
pub open spec fn searched(m: ResolverModel, path: Seq<char>, existing: Seq<Seq<char>>) -> Option<
    Seq<char>,
> {
    match first_existing(candidates(m, path), existing) {
        Some(found) => Some(found),
        None => first_suffix(m.go_files, path, m.rules),
    }
}

/// What `path` is resolved to.
pub open spec fn resolution(m: ResolverModel, path: Seq<char>, existing: Seq<Seq<char>>) -> Option<
    Seq<char>,
> {
    if m.cache.contains_key(path) {
        m.cache[path]
    } else {
        searched(m, path, existing)
    }
}

/// The resolver after `path` was resolved.
pub open spec fn resolved(m: ResolverModel, path: Seq<char>, existing: Seq<Seq<char>>) -> ResolverModel {
    ResolverModel { cache: m.cache.insert(path, resolution(m, path, existing)), ..m }
}

pub open spec fn text_of(s: Option<String>) -> Option<Seq<char>> {
    match s {
        Some(s) => Some(s@),
        None => None,
    }
}

/// Resolves profile file paths to workspace-relative paths.
pub struct PathResolver {
    rules: PathRules,
    workspace_root: String,
    config: PathMappingConfig,
    /// Cache: profile path -> resolved workspace-relative path (or None if unresolvable).
    cache: StringHashMap<Option<String>>,
    /// Go files in the workspace (relative paths).
    go_files: Vec<String>,
}

impl View for PathResolver {
    type V = ResolverModel;

    closed spec fn view(&self) -> ResolverModel {
        ResolverModel {
            rules: self.rules,
            root: self.workspace_root@,
            trim_prefix: self.config.trim_prefix@,
            source_root: self.config.source_root@,
            go_files: self.go_files.deep_view(),
            cache: self.cache@.map_values(|found: Option<String>| text_of(found)),
        }
    }
}

fn copy_text(s: &Option<String>) -> (r: Option<String>)
    ensures
        text_of(r) == text_of(*s),
{
    match s {
        Some(s) => Some(s.as_str().to_string()),
        None => None,
    }
}

/// Whether the text is among the others.
pub fn contains_text(texts: &Vec<String>, text: &str) -> (r: bool)
    ensures
        r == texts.deep_view().contains(text@),
{
    let mut i: usize = 0;
    while i < texts.len()
        invariant
            i <= texts@.len(),
            forall|k: int| 0 <= k < i ==> texts.deep_view()[k] != text@,
        decreases texts.len() - i,
    {
        if same_text(texts[i].as_str(), text) {
            assert(texts.deep_view()[i as int] == text@);
            return true;
        }
        i += 1;
    }
    false
}

impl PathResolver {
    /// A resolver for the workspace at a root, with the given Go files.
    pub fn new(
        workspace_root: String,
        config: PathMappingConfig,
        go_files: Vec<String>,
        rules: PathRules,
    ) -> (r: PathResolver)
        ensures
            r@.rules == rules,
            r@.root == workspace_root@,
            r@.trim_prefix == config.trim_prefix@,
            r@.source_root == config.source_root@,
            r@.go_files == go_files.deep_view(),
            r@.cache == Map::<Seq<char>, Option<Seq<char>>>::empty(),
    {
        let r = PathResolver {
            rules,
            workspace_root,
            config,
            cache: StringHashMap::new(),
            go_files,
        };
        assert(r@.cache =~= Map::<Seq<char>, Option<Seq<char>>>::empty());
        r
    }

    /// Forgets what was resolved, and takes the workspace's Go files anew.
    /// Call this when profile data is reloaded.
    pub fn invalidate(&mut self, go_files: Vec<String>)
        ensures
            final(self)@ == (ResolverModel {
                go_files: go_files.deep_view(),
                cache: Map::empty(),
                ..old(self)@
            }),
    {
        self.cache.clear();
        self.go_files = go_files;
        assert(self@.cache =~= Map::<Seq<char>, Option<Seq<char>>>::empty());
    }

    /// Whether nothing has been resolved yet.
    pub fn is_fresh(&self) -> (r: bool)
        ensures
            r == (self@.cache == Map::<Seq<char>, Option<Seq<char>>>::empty()),
    {
        proof {
            if self.cache@.is_empty() {
                assert(self@.cache =~= Map::<Seq<char>, Option<Seq<char>>>::empty());
            }
            if self@.cache == Map::<Seq<char>, Option<Seq<char>>>::empty() {
                assert forall|path: Seq<char>| !self.cache@.contains_key(path) by {
                    assert(!self@.cache.contains_key(path));
                }
                assert(self.cache@.dom() =~= Set::empty());
            }
        }
        self.cache.is_empty()
    }

    /// The path seen from the workspace, where it lies there.
    fn find_within(&self, path: &str) -> (r: Vec<String>)
        ensures
            r.deep_view() == within(self@, path@),
    {
        let mut r: Vec<String> = Vec::new();
        if is_plain_path(path, self.rules) {
            r.push(path.to_string());
        } else {
            let whole: String = join_paths_by(self.workspace_root.as_str(), path, self.rules);
            match path_below_by(whole.as_str(), self.workspace_root.as_str(), self.rules) {
                Some(rest) => {
                    if is_plain_path(rest.as_str(), self.rules) {
                        r.push(rest);
                    }
                },
                None => {},
            }
        }
        assert(r.deep_view() =~= within(self@, path@));
        r
    }

    /// The workspace-relative paths at which the file may lie, in the order in which
    /// they are tried.
    pub fn candidate_paths(&self, profile_path: &str) -> (r: Vec<String>)
        ensures
            r.deep_view() == candidates(self@, profile_path@),
    {
        let path: Vec<char> = to_chars(profile_path);
        let mut r: Vec<String> = self.find_within(profile_path);
        let ghost first = within(self@, profile_path@);
        let prefix: Vec<char> = to_chars(self.config.trim_prefix.as_str());
        if prefix.len() > 0 && begins_with(&path, &prefix) {
            let mut start: usize = prefix.len();
            let ghost wanted = without_leading(path@.skip(start as int));
            while start < path.len() && path[start] == '/'
                invariant
                    start <= path@.len(),
                    wanted == without_leading(path@.skip(start as int)),
                decreases path.len() - start,
            {
                assert(path@.skip(start as int).skip(1) =~= path@.skip(start + 1));
                start += 1;
            }
            let trimmed: String = text_between(&path, start, path.len());
            assert(trimmed@ =~= path@.skip(start as int));
            let ghost second = within(self@, trimmed@);
            let mut more: Vec<String> = self.find_within(trimmed.as_str());
            r.append(&mut more);
            assert(r.deep_view() =~= first + second);
            if !self.config.source_root.as_str().is_empty() {
                let rooted: String = join_paths_by(
                    self.config.source_root.as_str(),
                    trimmed.as_str(),
                    self.rules,
                );
                let ghost third = within(self@, rooted@);
                let mut last: Vec<String> = self.find_within(rooted.as_str());
                r.append(&mut last);
                assert(r.deep_view() =~= first + second + third);
            }
        }
        r
    }

    /// Resolve a profile path to a workspace-relative path.
    /// `existing` holds those of the candidate paths that exist in the workspace.
    /// Returns None if the file cannot be found in the workspace.
    pub fn resolve(&mut self, profile_path: &str, existing: &Vec<String>) -> (r: Option<String>)
        ensures
            text_of(r) == resolution(old(self)@, profile_path@, existing.deep_view()),
            final(self)@ == resolved(old(self)@, profile_path@, existing.deep_view()),
    {
        let ghost before = *self;
        match self.cache.get(profile_path) {
            Some(cached) => {
                let r: Option<String> = copy_text(cached);
                assert(self@.cache =~= resolved(
                    before@,
                    profile_path@,
                    existing.deep_view(),
                ).cache);
                return r;
            },
            None => {},
        }
        let r: Option<String> = self.resolve_uncached(profile_path, existing);
        let kept: Option<String> = copy_text(&r);
        self.cache.insert(profile_path.to_string(), kept);
        assert(self@.cache =~= resolved(before@, profile_path@, existing.deep_view()).cache);
        r
    }

    /// Searches the file without regard to what was resolved before.
    pub fn resolve_uncached(&self, profile_path: &str, existing: &Vec<String>) -> (r: Option<
        String,
    >)
        ensures
            text_of(r) == searched(self@, profile_path@, existing.deep_view()),
    {
        let paths: Vec<String> = self.candidate_paths(profile_path);
        let ghost all = paths.deep_view();
        let mut i: usize = 0;
        assert(all.skip(0) =~= all);
        while i < paths.len()
            invariant
                i <= paths@.len(),
                all == paths.deep_view(),
                first_existing(all, existing.deep_view()) == first_existing(
                    all.skip(i as int),
                    existing.deep_view(),
                ),
                all == candidates(self@, profile_path@),
            decreases paths.len() - i,
        {
            assert(all.skip(i as int)[0] == paths@[i as int]@);
            assert(all.skip(i as int).skip(1) =~= all.skip(i + 1));
            if contains_text(existing, paths[i].as_str()) {
                return Some(paths[i].as_str().to_string());
            }
            i += 1;
        }
        let ghost files = self.go_files.deep_view();
        let mut n: usize = 0;
        assert(files.skip(0) =~= files);
        while n < self.go_files.len()
            invariant
                n <= self.go_files@.len(),
                files == self.go_files.deep_view(),
                files == self@.go_files,
                first_suffix(files, profile_path@, self.rules) == first_suffix(
                    files.skip(n as int),
                    profile_path@,
                    self.rules,
                ),
                first_existing(candidates(self@, profile_path@), existing.deep_view()) is None,
            decreases self.go_files.len() - n,
        {
            assert(files.skip(n as int)[0] == self.go_files@[n as int]@);
            assert(files.skip(n as int).skip(1) =~= files.skip(n + 1));
            if path_ends_with(profile_path, self.go_files[n].as_str(), self.rules) {
                return Some(self.go_files[n].as_str().to_string());
            }
            n += 1;
        }
        None
    }
}

/// A path that was resolved once is resolved to the same until the cache is forgotten,
/// whatever exists by then.
pub proof fn lemma_resolved_once(
    m: ResolverModel,
    path: Seq<char>,
    existing: Seq<Seq<char>>,
    later: Seq<Seq<char>>,
)
    ensures
        resolution(resolved(m, path, existing), path, later) == resolution(m, path, existing),
{
}

/// To resolve one path changes nothing about another.
pub proof fn lemma_others_kept(
    m: ResolverModel,
    path: Seq<char>,
    existing: Seq<Seq<char>>,
    other: Seq<char>,
    later: Seq<Seq<char>>,
)
    requires
        other != path,
    ensures
        resolution(resolved(m, path, existing), other, later) == resolution(m, other, later),
{
}

proof fn lemma_first_existing(paths: Seq<Seq<char>>, existing: Seq<Seq<char>>)
    ensures
        match first_existing(paths, existing) {
            Some(found) => exists|i: int|
                0 <= i < paths.len() && #[trigger] paths[i] == found && existing.contains(found)
                    && forall|k: int| 0 <= k < i ==> !existing.contains(#[trigger] paths[k]),
            None => forall|i: int| 0 <= i < paths.len() ==> !existing.contains(#[trigger] paths[i]),
        },
    decreases paths.len(),
{
    if paths.len() > 0 && !existing.contains(paths[0]) {
        let rest = paths.skip(1);
        lemma_first_existing(rest, existing);
        match first_existing(rest, existing) {
            Some(found) => {
                let i = choose|i: int|
                    0 <= i < rest.len() && #[trigger] rest[i] == found && existing.contains(found)
                        && forall|k: int| 0 <= k < i ==> !existing.contains(#[trigger] rest[k]);
                assert(paths[i + 1] == found);
                assert forall|k: int| 0 <= k < i + 1 implies !existing.contains(
                    #[trigger] paths[k],
                ) by {
                    if k > 0 {
                        assert(rest[k - 1] == paths[k]);
                    }
                }
            },
            None => {
                assert forall|i: int| 0 <= i < paths.len() implies !existing.contains(
                    #[trigger] paths[i],
                ) by {
                    if i > 0 {
                        assert(rest[i - 1] == paths[i]);
                    }
                }
            },
        }
    }
}

proof fn lemma_first_suffix(files: Seq<Seq<char>>, path: Seq<char>, rules: PathRules)
    ensures
        match first_suffix(files, path, rules) {
            Some(found) => exists|i: int|
                0 <= i < files.len() && #[trigger] files[i] == found && ends_with_by(path, found, rules)
                    && forall|k: int| 0 <= k < i ==> !ends_with_by(path, #[trigger] files[k], rules),
            None => forall|i: int| 0 <= i < files.len() ==> !ends_with_by(path, #[trigger] files[i], rules),
        },
    decreases files.len(),
{
    if files.len() > 0 && !ends_with_by(path, files[0], rules) {
        let rest = files.skip(1);
        lemma_first_suffix(rest, path, rules);
        match first_suffix(rest, path, rules) {
            Some(found) => {
                let i = choose|i: int|
                    0 <= i < rest.len() && #[trigger] rest[i] == found && ends_with_by(path, found, rules)
                        && forall|k: int| 0 <= k < i ==> !ends_with_by(path, #[trigger] rest[k], rules);
                assert(files[i + 1] == found);
                assert forall|k: int| 0 <= k < i + 1 implies !ends_with_by(
                    path,
                    #[trigger] files[k],
                    rules,
                ) by {
                    if k > 0 {
                        assert(rest[k - 1] == files[k]);
                    }
                }
            },
            None => {
                assert forall|i: int| 0 <= i < files.len() implies !ends_with_by(
                    path,
                    #[trigger] files[i],
                    rules,
                ) by {
                    if i > 0 {
                        assert(rest[i - 1] == files[i]);
                    }
                }
            },
        }
    }
}

/// A path is resolved to the first of its candidates that exists, or else to the first
/// Go file whose components are the last ones of the path; to nothing only where there
/// is neither.
pub proof fn lemma_searched_in_order(
    m: ResolverModel,
    path: Seq<char>,
    existing: Seq<Seq<char>>,
)
    ensures
        ({
            let tried = candidates(m, path);
            match searched(m, path, existing) {
                Some(found) => {
                    ||| exists|i: int|
                        0 <= i < tried.len() && #[trigger] tried[i] == found && existing.contains(
                            found,
                        ) && forall|k: int| 0 <= k < i ==> !existing.contains(#[trigger] tried[k])
                    ||| (forall|i: int|
                        0 <= i < tried.len() ==> !existing.contains(#[trigger] tried[i])) && exists|
                        i: int,
                    |
                        0 <= i < m.go_files.len() && #[trigger] m.go_files[i] == found
                            && ends_with_by(path, found, m.rules) && forall|k: int|
                            0 <= k < i ==> !ends_with_by(path, #[trigger] m.go_files[k], m.rules)
                },
                None => (forall|i: int|
                    0 <= i < tried.len() ==> !existing.contains(#[trigger] tried[i])) && (forall|
                    i: int,
                |
                    0 <= i < m.go_files.len() ==> !ends_with_by(
                        path,
                        #[trigger] m.go_files[i],
                        m.rules,
                    )),
            }
        }),
{
    lemma_first_existing(candidates(m, path), existing);
    lemma_first_suffix(m.go_files, path, m.rules);
}

proof fn lemma_within_plain(m: ResolverModel, path: Seq<char>)
    ensures
        within(m, path).len() <= 1,
        within(m, path).len() == 1 ==> is_plain(within(m, path)[0], m.rules),
{
}

/// No candidate starts with a prefix or at the root.
pub proof fn lemma_candidates_relative(m: ResolverModel, path: Seq<char>, i: int)
    requires
        0 <= i < candidates(m, path).len(),
    ensures
        is_plain(candidates(m, path)[i], m.rules),
{
    let trimmed = without_leading(path.skip(m.trim_prefix.len() as int));
    let first = within(m, path);
    let second = within(m, trimmed);
    let third = within(m, joined_by(m.source_root, trimmed, m.rules));
    lemma_within_plain(m, path);
    lemma_within_plain(m, trimmed);
    lemma_within_plain(m, joined_by(m.source_root, trimmed, m.rules));
    lemma_one_of_three(first, second, third, i);
}

/// An element of short lists behind each other is the first of one of them.
proof fn lemma_one_of_three(a: Seq<Seq<char>>, b: Seq<Seq<char>>, c: Seq<Seq<char>>, i: int)
    requires
        a.len() <= 1,
        b.len() <= 1,
        c.len() <= 1,
    ensures
        0 <= i < a.len() ==> a[i] == a[0],
        0 <= i < (a + b).len() ==> (a.len() == 1 && (a + b)[i] == a[0]) || (b.len() == 1 && (a
            + b)[i] == b[0]),
        0 <= i < (a + b + c).len() ==> (a.len() == 1 && (a + b + c)[i] == a[0]) || (b.len() == 1 && (
        a + b + c)[i] == b[0]) || (c.len() == 1 && (a + b + c)[i] == c[0]),
{
}

/// A path is resolved to one inside the workspace: where the Go files are given by such
/// paths, nothing comes out that starts with a prefix or at the root.
pub proof fn lemma_searched_relative(m: ResolverModel, path: Seq<char>, existing: Seq<Seq<char>>)
    requires
        forall|i: int| 0 <= i < m.go_files.len() ==> is_plain(#[trigger] m.go_files[i], m.rules),
    ensures
        searched(m, path, existing) matches Some(found) ==> is_plain(found, m.rules),
{
    lemma_searched_in_order(m, path, existing);
    assert forall|i: int| 0 <= i < candidates(m, path).len() implies is_plain(
        #[trigger] candidates(m, path)[i],
        m.rules,
    ) by {
        lemma_candidates_relative(m, path, i);
    }
}

/// A file that exists in the workspace is found there before any other, also by its
/// absolute path.
pub proof fn lemma_inside_found(
    m: ResolverModel,
    path: Seq<char>,
    existing: Seq<Seq<char>>,
    rest: Seq<char>,
)
    requires
        within(m, path) == seq![rest],
        existing.contains(rest),
    ensures
        searched(m, path, existing) == Some(rest),
{
    assert(candidates(m, path)[0] == rest);
}

proof fn lemma_names_add(a: Seq<Seq<char>>, b: Seq<Seq<char>>)
    ensures
        names(a + b) == names(a) + names(b),
    decreases b.len(),
{
    if b.len() == 0 {
        assert(a + b =~= a);
        assert(names(a) + names(b) =~= names(a));
    } else {
        let rest = b.drop_last();
        lemma_names_add(a, rest);
        assert((a + b).drop_last() =~= a + rest);
        assert((a + b).last() == b.last());
        assert(names(a + b) =~= names(a) + names(b));
    }
}

proof fn lemma_names_front(parts: Seq<Seq<char>>)
    requires
        parts.len() > 0,
    ensures
        names(parts) == if significant(parts[0]) {
            seq![parts[0]] + names(parts.skip(1))
        } else {
            names(parts.skip(1))
        },
{
    reveal_with_fuel(names, 2);
    let head = seq![parts[0]];
    lemma_names_add(head, parts.skip(1));
    assert(head + parts.skip(1) =~= parts);
    assert(head.drop_last() =~= seq![]);
    assert(head.last() == parts[0]);
    assert(names(head) =~= if significant(parts[0]) {
        head
    } else {
        seq![]
    });
    assert(seq![] + names(parts.skip(1)) =~= names(parts.skip(1)));
}

/// The pieces after some names hold the names after them, and start with one.
proof fn lemma_after_names(parts: Seq<Seq<char>>, n: nat)
    requires
        n <= names(parts).len(),
        forall|i: int| 0 <= i < parts.len() ==> !(#[trigger] parts[i]).contains('/'),
    ensures
        ({
            let rest = after_names(parts, n);
            &&& names(rest) == names(parts).skip(n as int)
            &&& rest.len() > 0 ==> significant(rest[0])
            &&& forall|i: int| 0 <= i < rest.len() ==> !(#[trigger] rest[i]).contains('/')
        }),
    decreases parts.len(),
{
    if parts.len() > 0 {
        let tail = parts.skip(1);
        lemma_names_front(parts);
        assert forall|i: int| 0 <= i < tail.len() implies !(#[trigger] tail[i]).contains('/') by {
            assert(tail[i] == parts[i + 1]);
        }
        if !significant(parts[0]) {
            lemma_after_names(tail, n);
        } else if n > 0 {
            lemma_after_names(tail, (n - 1) as nat);
            assert((seq![parts[0]] + names(tail)).skip(n as int) =~= names(tail).skip(n - 1));
        } else {
            assert(names(parts).skip(0) =~= names(parts));
        }
    } else {
        assert(names(parts).skip(0) =~= names(parts));
    }
}

/// The pieces up to the last name hold all names, and start as they did.
proof fn lemma_up_to_name(parts: Seq<Seq<char>>)
    ensures
        ({
            let kept = up_to_name(parts);
            &&& names(kept) == names(parts)
            &&& kept.len() <= parts.len()
            &&& kept == parts.take(kept.len() as int)
            &&& kept.len() == 0 ==> names(parts).len() == 0
            &&& kept.len() > 0 ==> significant(kept.last())
        }),
    decreases parts.len(),
{
    if parts.len() > 0 && !significant(parts.last()) {
        lemma_up_to_name(parts.drop_last());
        let kept = up_to_name(parts);
        assert(parts.drop_last().take(kept.len() as int) =~= parts.take(kept.len() as int));
    } else {
        assert(parts.take(parts.len() as int) =~= parts);
    }
}

/// The components of a path and of one seen from it.
proof fn lemma_joined_components(base: Seq<char>, path: Seq<char>)
    requires
        base.len() > 0,
        lead(path).len() == 0,
    ensures
        components(joined_path(base, path)) == components(base) + components(path),
{
    let whole = joined_path(base, path);
    assert(path.len() == 0 || path[0] != '/');
    lemma_pieces_some(base, '/');
    lemma_pieces_some(path, '/');
    if base.last() == '/' {
        let inner = base.drop_last();
        let none: Seq<char> = seq![];
        lemma_pieces_some(inner, '/');
        lemma_pieces_concat(inner, path, '/');
        lemma_pieces_concat(inner, none, '/');
        assert(inner.push('/') =~= base);
        assert(base + none =~= base);
        assert(pieces(whole, '/') == pieces(inner, '/') + pieces(path, '/'));
        assert(pieces(base, '/') == pieces(inner, '/') + pieces(none, '/'));
        lemma_names_add(pieces(inner, '/'), pieces(path, '/'));
        lemma_names_add(pieces(inner, '/'), pieces(none, '/'));
        assert(names(pieces(none, '/')) =~= seq![]) by {
            reveal_with_fuel(names, 2);
            assert(pieces(none, '/') =~= seq![none]);
            assert(seq![none].drop_last() =~= seq![]);
        }
        assert(pieces(whole, '/')[0] == pieces(base, '/')[0]);
        assert(names(pieces(inner, '/')) + names(pieces(none, '/')) =~= names(pieces(inner, '/')));
    } else {
        lemma_pieces_concat(base, path, '/');
        lemma_names_add(pieces(base, '/'), pieces(path, '/'));
        assert(pieces(whole, '/')[0] == pieces(base, '/')[0]);
    }
    assert(whole[0] == base[0]);
    assert(lead(whole) == lead(base));
    assert(components(whole) =~= components(base) + components(path));
}

/// A first piece without characters means a root, or no path at all.
proof fn lemma_first_piece(path: Seq<char>)
    ensures
        pieces(path, '/')[0].len() == 0 <==> path.len() == 0 || path[0] == '/',
        path.len() > 0 && path[0] == '/' ==> pieces(path, '/').len() > 1,
    decreases path.len(),
{
    lemma_pieces_some(path, '/');
    if path.len() > 0 {
        let rest = path.drop_last();
        lemma_pieces_some(rest, '/');
        lemma_first_piece(rest);
        let before = pieces(rest, '/');
        if path.last() == '/' {
            assert(pieces(path, '/')[0] == before[0]);
        } else if before.len() > 1 {
            assert(pieces(path, '/')[0] == before[0]);
        } else {
            assert(pieces(path, '/')[0] == before[0].push(path.last()));
        }
        if rest.len() == 0 {
            assert(path[0] == path.last());
        } else {
            assert(path[0] == rest[0]);
        }
    }
}

/// Joined pieces start with the root where the first piece is empty and not the only one.
proof fn lemma_joined_lead(path: Seq<char>, n: int)
    requires
        1 <= n <= pieces(path, '/').len(),
        n > 1 || significant(pieces(path, '/')[0]),
    ensures
        ({
            let text = joined(pieces(path, '/').take(n), '/');
            &&& pieces(text, '/') == pieces(path, '/').take(n)
            &&& lead(text) == lead(path)
        }),
{
    let parts = pieces(path, '/').take(n);
    let text = joined(parts, '/');
    assert forall|i: int| 0 <= i < parts.len() implies !(#[trigger] parts[i]).contains('/') by {
        lemma_pieces_free(path, '/', i);
    }
    lemma_pieces_joined(parts, '/');
    lemma_first_piece(path);
    lemma_first_piece(text);
    assert(pieces(text, '/')[0] == pieces(path, '/')[0]);
    if text.len() == 0 {
        assert(pieces(text, '/').len() == 1);
        assert(significant(parts[0]));
    }
}

/// What is left of a path below a directory, seen from that directory, is the path, by the
/// rules of Unix.
pub proof fn lemma_below_joined(path: Seq<char>, base: Seq<char>)
    ensures
        below(path, base) matches Some(rest) ==> components(joined_path(base, rest)) == components(
            path,
        ),
{
    if below(path, base) is Some {
        let rest = below(path, base).unwrap();
        let parts = pieces(path, '/');
        let outer = components(base);
        lemma_pieces_some(path, '/');
        lemma_pieces_some(base, '/');
        assert forall|i: int| 0 <= i < parts.len() implies !(#[trigger] parts[i]).contains('/') by {
            lemma_pieces_free(path, '/', i);
        }
        if outer.len() > 0 {
            let n = (outer.len() - lead(path).len()) as nat;
            let after = after_names(parts, n);
            let kept = up_to_name(after);
            lemma_after_names(parts, n);
            lemma_up_to_name(after);
            assert(components(path).skip(outer.len() as int) =~= names(parts).skip(n as int));
            assert(components(path) =~= outer + components(path).skip(outer.len() as int));
            assert(base.len() > 0) by {
                if base.len() == 0 {
                    reveal_with_fuel(names, 2);
                    assert(pieces(base, '/') =~= seq![seq![]]);
                    assert(pieces(base, '/').drop_last() =~= seq![]);
                    lemma_empty_is_no_dot(base);
                    assert(outer =~= seq![]);
                }
            }
            assert(lead(rest).len() == 0 && components(rest) =~= names(kept)) by {
                if kept.len() > 0 {
                    assert forall|i: int| 0 <= i < kept.len() implies !(
                    #[trigger] kept[i]).contains('/') by {
                        assert(kept[i] == after[i]);
                    }
                    lemma_pieces_joined(kept, '/');
                    assert(kept[0] == after[0]);
                    lemma_first_piece(rest);
                } else {
                    reveal_with_fuel(names, 2);
                    assert(rest =~= seq![]);
                    assert(pieces(rest, '/') =~= seq![seq![]]);
                    assert(pieces(rest, '/').drop_last() =~= seq![]);
                    lemma_empty_is_no_dot(rest);
                }
            }
            lemma_joined_components(base, rest);
        } else {
            let kept = up_to_name(parts);
            lemma_up_to_name(parts);
            lemma_no_components(base);
            assert(joined_path(base, rest) =~= rest);
            if kept.len() > 0 {
                if kept.len() == 1 {
                    assert(kept[0] == kept.last());
                    assert(kept[0] == parts[0]);
                }
                lemma_joined_lead(path, kept.len() as int);
            } else {
                lemma_lead_components(path);
            }
        }
    }
}

proof fn lemma_empty_is_no_dot(path: Seq<char>)
    requires
        path.len() == 0,
    ensures
        lead(path).len() == 0,
{
    reveal_strlit(".");
    assert(pieces(path, '/')[0].len() == 0);
}

/// Only the empty path has no components.
proof fn lemma_no_components(path: Seq<char>)
    requires
        components(path).len() == 0,
    ensures
        path.len() == 0,
{
    lemma_pieces_some(path, '/');
    let parts = pieces(path, '/');
    lemma_names_front(parts);
    lemma_first_piece(path);
}

/// The root and the current directory are paths of their own.
proof fn lemma_lead_components(path: Seq<char>)
    requires
        names(pieces(path, '/')).len() == 0,
    ensures
        components(joined(lead(path), '/')) == components(path),
{
    reveal_strlit("/");
    reveal_strlit(".");
    reveal_with_fuel(names, 3);
    reveal_with_fuel(pieces, 3);
    let text = joined(lead(path), '/');
    let none: Seq<char> = seq![];
    if path.len() > 0 && path[0] == '/' {
        assert(text == "/"@);
        assert(text.drop_last() =~= none);
        assert(pieces(text, '/') =~= seq![none, none]);
        assert(pieces(text, '/').drop_last() =~= seq![none]);
        assert(seq![none].drop_last() =~= seq![]);
        assert(names(pieces(text, '/')) =~= seq![]);
        assert(components(text) =~= components(path));
    } else if pieces(path, '/')[0] == "."@ {
        assert(text == "."@);
        assert(!text.contains('/')) by {
            if text.contains('/') {
                let k = choose|k: int| 0 <= k < text.len() && text[k] == '/';
                assert(text[k] == '.');
            }
        }
        lemma_pieces_whole(text, '/');
        assert(pieces(text, '/').drop_last() =~= seq![]);
        assert(names(pieces(text, '/')) =~= seq![]);
        assert(components(text) =~= components(path));
    } else {
        assert(text =~= none);
        assert(pieces(text, '/') =~= seq![none]);
        assert(pieces(text, '/').drop_last() =~= seq![]);
        lemma_empty_is_no_dot(text);
        assert(components(text) =~= components(path));
    }
}

/// A text that names something in a directory.
pub open spec fn is_name(name: Seq<char>) -> bool {
    name.len() > 0 && name != "."@ && !name.contains('/')
}

/// The components of a path of names are the names; those of the same path from the root
/// have the root before them.
pub proof fn lemma_components_are_names(list: Seq<Seq<char>>)
    requires
        list.len() > 0,
        forall|i: int| 0 <= i < list.len() ==> is_name(#[trigger] list[i]),
    ensures
        components(joined(list, '/')) == list,
        components("/"@ + joined(list, '/')) == seq!["/"@] + list,
{
    let text = joined(list, '/');
    reveal_strlit("/");
    lemma_pieces_joined(list, '/');
    lemma_all_names(list);
    lemma_first_piece(text);
    assert(is_name(list[0]));
    assert(lead(text) =~= seq![]);
    assert(components(text) =~= list);
    let none: Seq<char> = seq![];
    let rooted = "/"@ + text;
    lemma_pieces_concat(none, text, '/');
    assert(none.push('/') + text =~= rooted);
    assert(pieces(none, '/') =~= seq![none]);
    assert(pieces(rooted, '/') == seq![none] + list);
    lemma_names_add(seq![none], list);
    assert(names(seq![none]) =~= seq![]) by {
        reveal_with_fuel(names, 2);
        assert(seq![none].drop_last() =~= seq![]);
    }
    assert(lead(rooted) == seq!["/"@]);
    assert(components(rooted) =~= seq!["/"@] + list);
}

proof fn lemma_all_names(list: Seq<Seq<char>>)
    requires
        forall|i: int| 0 <= i < list.len() ==> is_name(#[trigger] list[i]),
    ensures
        names(list) == list,
    decreases list.len(),
{
    if list.len() > 0 {
        let rest = list.drop_last();
        assert forall|i: int| 0 <= i < rest.len() implies is_name(#[trigger] rest[i]) by {
            assert(rest[i] == list[i]);
        }
        lemma_all_names(rest);
        assert(is_name(list[list.len() - 1]));
        assert(rest.push(list.last()) =~= list);
    } else {
        assert(names(list) =~= list);
    }
}

/// A slash at the end of a path, two in a row, and the current directory between names
/// count for nothing.
pub proof fn lemma_components_normal(a: Seq<char>, b: Seq<char>)
    requires
        a.len() > 0,
        !is_absolute(b),
        lead(b).len() == 0,
    ensures
        components(a.push('/')) == components(a),
        components(a.push('/').push('/') + b) == components(a.push('/') + b),
        components(a.push('/') + "./"@ + b) == components(a.push('/') + b),
{
    let none: Seq<char> = seq![];
    reveal_strlit("./");
    reveal_strlit(".");
    lemma_empty_is_no_dot(none);
    lemma_joined_with(a, none);
    assert(a.push('/') + none =~= a.push('/'));
    assert(components(none) =~= seq![]) by {
        reveal_with_fuel(names, 2);
        assert(pieces(none, '/') =~= seq![none]);
        assert(seq![none].drop_last() =~= seq![]);
    }
    assert(components(a) + components(none) =~= components(a));
    lemma_joined_with(a, b);
    lemma_joined_with(a.push('/'), b);
    let dot = a.push('/') + "."@;
    assert(a.push('/') + "./"@ + b =~= dot.push('/') + b);
    lemma_joined_with(dot, b);
    assert(components(dot) == components(a)) by {
        lemma_pieces_some(a, '/');
        lemma_pieces_concat(a, "."@, '/');
        assert(!"."@.contains('/')) by {
            if "."@.contains('/') {
                let k = choose|k: int| 0 <= k < "."@.len() && "."@[k] == '/';
                assert("."@[k] == '.');
            }
        }
        lemma_pieces_whole("."@, '/');
        lemma_names_add(pieces(a, '/'), seq!["."@]);
        assert(names(seq!["."@]) =~= seq![]) by {
            reveal_with_fuel(names, 2);
            assert(seq!["."@].drop_last() =~= seq![]);
        }
        assert(pieces(dot, '/')[0] == pieces(a, '/')[0]);
        assert(dot[0] == a[0]);
        assert(lead(dot) == lead(a));
        assert(names(pieces(dot, '/')) =~= names(pieces(a, '/')));
    }
}

/// The components of a path behind a directory and a slash.
proof fn lemma_joined_with(a: Seq<char>, b: Seq<char>)
    requires
        a.len() > 0,
        lead(b).len() == 0,
    ensures
        components(a.push('/') + b) == components(a) + components(b),
{
    lemma_pieces_some(a, '/');
    lemma_pieces_some(b, '/');
    lemma_pieces_concat(a, b, '/');
    lemma_names_add(pieces(a, '/'), pieces(b, '/'));
    let whole = a.push('/') + b;
    assert(pieces(whole, '/')[0] == pieces(a, '/')[0]);
    assert(whole[0] == a[0]);
    assert(lead(whole) == lead(a));
    assert(components(whole) =~= components(a) + components(b));
}

/// A path from the root stays; any other stands behind the directory, with one slash
/// between them.
pub proof fn lemma_joined_path(base: Seq<char>, path: Seq<char>)
    ensures
        path.len() > 0 && path[0] == '/' ==> joined_path(base, path) == path,
        (path.len() == 0 || path[0] != '/') && base.len() > 0 && base.last() != '/'
            ==> joined_path(base, path) == base.push('/') + path,
        (path.len() == 0 || path[0] != '/') && base.len() > 0 && base.last() == '/'
            ==> joined_path(base, path) == base + path,
        (path.len() == 0 || path[0] != '/') && base.len() == 0 ==> joined_path(base, path) == path,
{
    if base.len() == 0 {
        assert(base + path =~= path);
    }
}

/// What stands behind a directory and a slash is what is left of the path below it.
pub proof fn lemma_below_directory(base: Seq<char>, list: Seq<Seq<char>>)
    requires
        base.len() > 0,
        list.len() > 0,
        forall|i: int| 0 <= i < list.len() ==> is_name(#[trigger] list[i]),
    ensures
        below(base.push('/') + joined(list, '/'), base) == Some(joined(list, '/')),
{
    lemma_rest_directory(base, list);
}

/// The components behind a directory, and where they start.
pub(crate) proof fn lemma_rest_directory(base: Seq<char>, list: Seq<Seq<char>>)
    requires
        base.len() > 0,
        list.len() > 0,
        forall|i: int| 0 <= i < list.len() ==> is_name(#[trigger] list[i]),
    ensures
        ({
            let whole = base.push('/') + joined(list, '/');
            let n = components(base).len();
            &&& n > 0
            &&& components(whole) == components(base) + list
            &&& components(base).is_prefix_of(components(whole))
            &&& rest_after(whole, n) == joined(list, '/')
            &&& rest_start(whole, n) == base.len() + 1
        }),
{
    let text = joined(list, '/');
    let whole = base.push('/') + text;
    let outer = components(base);
    lemma_components_are_names(list);
    lemma_pieces_joined(list, '/');
    lemma_all_names(list);
    lemma_first_piece(text);
    assert(is_name(list[0]));
    assert(lead(text).len() == 0);
    lemma_joined_with(base, text);
    lemma_pieces_some(base, '/');
    lemma_pieces_concat(base, text, '/');
    let parts = pieces(base, '/');
    assert(pieces(whole, '/') == parts + list);
    assert(pieces(whole, '/')[0] == parts[0]);
    assert(whole[0] == base[0]);
    assert(lead(whole) == lead(base));
    if outer.len() == 0 {
        lemma_no_components(base);
    }
    lemma_after_all(parts, list);
    assert((outer.len() - lead(whole).len()) as nat == names(parts).len());
    assert(up_to_name(list) == list) by {
        assert(is_name(list[list.len() - 1]));
    }
    assert(outer.is_prefix_of(components(whole)));
}

/// Behind all names of the first pieces come the others.
proof fn lemma_after_all(parts: Seq<Seq<char>>, list: Seq<Seq<char>>)
    requires
        list.len() > 0,
        significant(list[0]),
    ensures
        after_names(parts + list, names(parts).len()) == list,
    decreases parts.len(),
{
    let whole = parts + list;
    if parts.len() == 0 {
        assert(whole =~= list);
        assert(names(parts) =~= seq![]);
    } else {
        let tail = parts.skip(1);
        lemma_names_front(parts);
        lemma_after_all(tail, list);
        assert(whole.skip(1) =~= tail + list);
        assert(whole[0] == parts[0]);
    }
}

/// A path lies below a directory exactly where it starts with its components.
pub proof fn lemma_below_exactly(path: Seq<char>, base: Seq<char>)
    ensures
        below(path, base) is Some <==> components(base).len() <= components(path).len() && forall|
            i: int,
        |
            0 <= i < components(base).len() ==> components(base)[i] == components(path)[i],
{
    let a = components(base);
    let b = components(path);
    if a.len() <= b.len() && forall|i: int| 0 <= i < a.len() ==> a[i] == b[i] {
        assert(a =~= b.take(a.len() as int));
    }
}

/// Where a file is looked for, by the rules of Unix: first at its own path where that is a
/// relative one; then, where the path starts with the prefix to trim, at what follows the
/// prefix and any slashes, and at that below the source root.
pub proof fn lemma_candidates_in_order(
    m: ResolverModel,
    path: Seq<char>,
    slashes: Seq<char>,
    rest: Seq<char>,
)
    requires
        m.rules == PathRules::Unix,
        forall|i: int| 0 <= i < slashes.len() ==> #[trigger] slashes[i] == '/',
        rest.len() == 0 || rest[0] != '/',
    ensures
        !is_absolute(path) ==> candidates(m, path).len() >= 1 && candidates(m, path)[0] == path,
        m.trim_prefix.len() == 0 && !is_absolute(path) ==> candidates(m, path) == seq![path],
        m.trim_prefix.len() > 0 && path == m.trim_prefix + slashes + rest && !is_absolute(path) && (
        m.source_root.len() == 0) ==> candidates(m, path) == seq![path, rest],
        m.trim_prefix.len() > 0 && path == m.trim_prefix + slashes + rest && !is_absolute(path)
            && m.source_root.len() > 0 && !is_absolute(m.source_root) ==> candidates(m, path)
            == seq![path, rest, joined_path(m.source_root, rest)],
        m.trim_prefix.len() > 0 && path == m.trim_prefix + slashes + rest && is_absolute(path)
            && below(path, m.root) is None && m.source_root.len() == 0 ==> candidates(m, path)
            == seq![rest],
        m.trim_prefix.len() > 0 && !m.trim_prefix.is_prefix_of(path) && !is_absolute(path)
            ==> candidates(m, path) == seq![path],
{
    if m.trim_prefix.len() > 0 && path == m.trim_prefix + slashes + rest {
        assert(path.take(m.trim_prefix.len() as int) =~= m.trim_prefix);
        assert(m.trim_prefix.is_prefix_of(path));
        assert(path.skip(m.trim_prefix.len() as int) =~= slashes + rest);
        lemma_slashes_trimmed(slashes, rest);
        assert(within(m, rest) == seq![rest]);
        if !is_absolute(path) {
            assert(within(m, path) == seq![path]);
            assert(seq![path] + seq![rest] =~= seq![path, rest]);
            let rooted = joined_path(m.source_root, rest);
            if m.source_root.len() > 0 && !is_absolute(m.source_root) {
                assert(rooted[0] == m.source_root[0]);
                assert(within(m, rooted) == seq![rooted]);
                assert(seq![path] + seq![rest] + seq![rooted] =~= seq![path, rest, rooted]);
            }
        } else if below(path, m.root) is None {
            assert(joined_path(m.root, path) == path);
            assert(within(m, path) =~= seq![]);
            assert(within(m, path) + seq![rest] =~= seq![rest]);
        }
    }
}

proof fn lemma_slashes_trimmed(slashes: Seq<char>, rest: Seq<char>)
    requires
        forall|i: int| 0 <= i < slashes.len() ==> #[trigger] slashes[i] == '/',
        rest.len() == 0 || rest[0] != '/',
    ensures
        without_leading(slashes + rest) == rest,
    decreases slashes.len(),
{
    if slashes.len() > 0 {
        let fewer = slashes.skip(1);
        assert forall|i: int| 0 <= i < fewer.len() implies #[trigger] fewer[i] == '/' by {
            assert(fewer[i] == slashes[i + 1]);
        }
        lemma_slashes_trimmed(fewer, rest);
        assert((slashes + rest).skip(1) =~= fewer + rest);
        assert((slashes + rest)[0] == slashes[0]);
    } else {
        assert(slashes + rest =~= rest);
    }
}

/// What was resolved before stays; anything else is searched.
pub proof fn lemma_resolution(m: ResolverModel, path: Seq<char>, existing: Seq<Seq<char>>)
    ensures
        m.cache.contains_key(path) ==> resolution(m, path, existing) == m.cache[path],
        !m.cache.contains_key(path) ==> resolution(m, path, existing) == searched(
            m,
            path,
            existing,
        ),
        resolved(m, path, existing).cache.contains_key(path),
        resolved(m, path, existing).cache[path] == resolution(m, path, existing),
        resolved(m, path, existing).root == m.root,
        resolved(m, path, existing).rules == m.rules,
        resolved(m, path, existing).trim_prefix == m.trim_prefix,
        resolved(m, path, existing).source_root == m.source_root,
        resolved(m, path, existing).go_files == m.go_files,
{
}

/// A file below the workspace is found by its absolute path, and one outside of it only by
/// its last components, by the rules of Unix.
pub proof fn lemma_absolute_path(
    m: ResolverModel,
    list: Seq<Seq<char>>,
    existing: Seq<Seq<char>>,
)
    requires
        m.rules == PathRules::Unix,
        is_absolute(m.root),
        list.len() > 0,
        forall|i: int| 0 <= i < list.len() ==> is_name(#[trigger] list[i]),
    ensures
        ({
            let path = m.root.push('/') + joined(list, '/');
            existing.contains(joined(list, '/')) ==> searched(m, path, existing) == Some(
                joined(list, '/'),
            )
        }),
{
    let text = joined(list, '/');
    let path = m.root.push('/') + text;
    lemma_below_directory(m.root, list);
    lemma_components_are_names(list);
    lemma_pieces_joined(list, '/');
    lemma_first_piece(text);
    assert(is_name(list[0]));
    assert(path[0] == m.root[0]);
    assert(joined_path(m.root, path) == path);
    assert(!is_absolute(text));
    assert(within(m, path) == seq![text]);
    if existing.contains(text) {
        lemma_inside_found(m, path, existing, text);
    }
}

} // verus!
