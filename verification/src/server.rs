//! The state of the server, and what it answers to each request.

use crate::analysis::analyzed;
use crate::analysis::checked_analyze_profile;
use crate::analysis::sums_fit;
use crate::analysis::ProfileData;
use crate::config::is_default;
use crate::config::Config;
use crate::decode::decoded;
use crate::discovery::find_newest;
use crate::discovery::newest;
use crate::hints::generate_inlay_hints;
use crate::hints::is_hinted;
use crate::hints::shows_hints;
use crate::lenses::chosen;
use crate::lenses::generate_code_lenses;
use crate::lenses::shows_hotspots;
use crate::lsp::CodeLens;
use crate::lsp::InlayHint;
use crate::lsp::Range;
use crate::paths::components;
use crate::paths::is_name;
use crate::paths::lemma_below_directory;
use crate::paths::lemma_below_exactly;
use crate::paths::text_of;
use crate::profile::parse_profile;
use crate::profile::payload;
use crate::profile::ParseError;
use crate::rules::below_by;
use crate::rules::path_below_by;
use crate::rules::PathRules;
use crate::text::joined;
use crate::text::lemma_joined_pieces;
use crate::text::lemma_pieces_some;
use crate::text::pieces;
use crate::text::read_text;
use crate::text::text_between;
use crate::text::to_chars;
use crate::watch::is_changed;
use crate::watch::times;
use crate::watch::told;
use crate::watch::FileStat;
use crate::watch::FileWatcher;
use crate::watch::WatcherModel;
use crate::wire::Malformed;
use tower_lsp::lsp_types::Url;
use vstd::prelude::*;
use vstd::utf8::decode_utf8;
use vstd::utf8::valid_utf8;

verus! {

/// A path of the file system.
#[derive(Debug, Clone)]
pub enum FilePath {
    /// A path that is Unicode.
    Text(String),
    /// The bytes of one that is not.
    Raw(Vec<u8>),
}

/// What a [`FilePath`] holds.
pub enum PathModel {
    Text(Seq<char>),
    Raw(Seq<u8>),
}

impl View for FilePath {
    type V = PathModel;

    open spec fn view(&self) -> PathModel {
        match *self {
            FilePath::Text(text) => PathModel::Text(text@),
            FilePath::Raw(bytes) => PathModel::Raw(bytes@),
        }
    }
}

pub open spec fn path_of(path: Option<FilePath>) -> Option<PathModel> {
    match path {
        Some(path) => Some(path@),
        None => None,
    }
}

/// The path with the given bytes, where there is one.
pub open spec fn read_path(bytes: Option<Seq<u8>>) -> Option<PathModel> {
    match bytes {
        Some(bytes) => if valid_utf8(bytes) {
            Some(PathModel::Text(decode_utf8(bytes)))
        } else {
            Some(PathModel::Raw(bytes))
        },
        None => None,
    }
}

/// The bytes of the path of the file system that a URI stands for, where it stands for
/// one. The second argument is what the path depends on besides the URI: the operating
/// system, and whether there is memory left for the path.
pub uninterp spec fn file_path(uri: Seq<char>, machine: nat) -> Option<Seq<u8>>;

/// A character for each byte.
pub open spec fn byte_text(bytes: Seq<u8>) -> Seq<char> {
    bytes.map_values(|b: u8| b as char)
}

/// The byte for each character.
pub open spec fn text_bytes(text: Seq<char>) -> Seq<u8> {
    text.map_values(|c: char| c as u8)
}

/// The path of a document seen from the workspace, where it has a path and lies there. A
/// path that is not Unicode has such a key only where the part that is not belongs to the
/// workspace's own path.
pub open spec fn file_key(
    path: Option<PathModel>,
    workspace_root: PathModel,
    rules: PathRules,
) -> Option<Seq<char>> {
    match (path, workspace_root) {
        (Some(PathModel::Text(path)), PathModel::Text(root)) => below_by(path, root, rules),
        (Some(PathModel::Raw(path)), PathModel::Raw(root)) => match below_by(
            byte_text(path),
            byte_text(root),
            rules,
        ) {
            Some(rest) => if valid_utf8(text_bytes(rest)) {
                Some(decode_utf8(text_bytes(rest)))
            } else {
                None
            },
            None => None,
        },
        _ => None,
    }
}

/// `Url::to_file_path` turns a URI, as `Url::parse` reads it, into a path of the file
/// system; there is none where it fails, and where the text is no URI. What comes back are
/// the path's bytes. The path is one that the URI stands for on some machine; which of
/// them, and how it is made from the URI, is not stated: it differs between operating
/// systems.
#[verifier::external_body]
fn file_path_of(uri: &str) -> (r: Option<Vec<u8>>)
    ensures
        exists|machine: nat|
            #[trigger] file_path(uri@, machine) == match r {
                Some(bytes) => Some(bytes@),
                None => None,
            },
{
    let path = Url::parse(uri).ok()?.to_file_path().ok()?;
    Some(path.as_os_str().as_encoded_bytes().to_vec())
}

/// The path with the given bytes.
pub fn path_from_bytes(bytes: Option<Vec<u8>>) -> (r: Option<FilePath>)
    ensures
        path_of(r) == read_path(
            match bytes {
                Some(bytes) => Some(bytes@),
                None => None,
            },
        ),
{
    match bytes {
        Some(bytes) => match read_text(bytes.as_slice()) {
            Some(text) => Some(FilePath::Text(text)),
            None => Some(FilePath::Raw(bytes)),
        },
        None => None,
    }
}

fn to_byte_text(bytes: &Vec<u8>) -> (r: String)
    ensures
        r@ == byte_text(bytes@),
{
    let mut chars: Vec<char> = Vec::new();
    let mut i: usize = 0;
    while i < bytes.len()
        invariant
            i <= bytes@.len(),
            chars@ == byte_text(bytes@.take(i as int)),
        decreases bytes.len() - i,
    {
        chars.push(bytes[i] as char);
        i += 1;
        assert(chars@ =~= byte_text(bytes@.take(i as int)));
    }
    assert(bytes@.take(i as int) =~= bytes@);
    assert(chars@.subrange(0, chars@.len() as int) =~= chars@);
    text_between(&chars, 0, chars.len())
}

fn to_text_bytes(text: &str) -> (r: Vec<u8>)
    ensures
        r@ == text_bytes(text@),
{
    let chars: Vec<char> = to_chars(text);
    let mut r: Vec<u8> = Vec::new();
    let mut i: usize = 0;
    while i < chars.len()
        invariant
            i <= chars@.len(),
            r@ == text_bytes(chars@.take(i as int)),
        decreases chars.len() - i,
    {
        r.push(chars[i] as u8);
        i += 1;
        assert(r@ =~= text_bytes(chars@.take(i as int)));
    }
    assert(chars@.take(i as int) =~= chars@);
    r
}

/// Resolve a document path to a workspace-relative file key.
/// Returns None if it doesn't lie in the workspace.
pub fn path_to_file_key(
    path: Option<FilePath>,
    workspace_root: &FilePath,
    rules: PathRules,
) -> (r: Option<String>)
    ensures
        text_of(r) == file_key(path_of(path), workspace_root@, rules),
{
    match (path, workspace_root) {
        (Some(FilePath::Text(path)), FilePath::Text(root)) => path_below_by(
            path.as_str(),
            root.as_str(),
            rules,
        ),
        (Some(FilePath::Raw(path)), FilePath::Raw(root)) => match path_below_by(
            to_byte_text(&path).as_str(),
            to_byte_text(root).as_str(),
            rules,
        ) {
            Some(rest) => read_text(to_text_bytes(rest.as_str()).as_slice()),
            None => None,
        },
        _ => None,
    }
}

/// Resolve a document URI to a workspace-relative file key.
/// Returns None if the URI can't be resolved or doesn't match workspace.
/// Which of the paths that the URI stands for on some machine is meant is not stated.
pub fn uri_to_file_key(uri: &str, workspace_root: &FilePath, rules: PathRules) -> (r: Option<
    String,
>)
    ensures
        exists|machine: nat|
            text_of(r) == file_key(
                read_path(#[trigger] file_path(uri@, machine)),
                workspace_root@,
                rules,
            ),
{
    path_to_file_key(path_from_bytes(file_path_of(uri)), workspace_root, rules)
}

/// What the server can do.
#[derive(Debug, Clone, Copy, PartialEq, Eq, Structural)]
pub struct Capabilities {
    /// Inlay hints are served; whether they can be resolved further.
    pub inlay_hint_resolve: Option<bool>,
    /// Code lenses are served; whether they can be resolved further.
    pub code_lens_resolve: Option<bool>,
    /// Opening and closing of documents is listened to.
    pub sync_open_close: Option<bool>,
    /// Changes of documents are listened to.
    pub sync_changes: Option<bool>,
}

/// What is to be done to load profiles.
#[derive(Debug, Clone, Copy, PartialEq, Eq, Structural)]
pub enum LoadPlan {
    /// Nothing: what is loaded stays.
    Keep,
    /// There is no profile: what is loaded is dropped.
    Clear,
    /// The file with this index is to be read.
    Read(usize),
}

/// What came of a profile's bytes.
#[derive(Debug)]
pub enum Loaded {
    /// The analysis of the profile.
    Data(ProfileData),
    /// The bytes hold no profile.
    Failed(ParseError),
    /// A sum over the profile leaves the range of its type.
    Overflow,
}

/// Shared server state.
#[derive(Debug)]
pub struct ServerState {
    pub config: Config,
    pub profile_data: Option<ProfileData>,
    pub workspace_root: Option<FilePath>,
    pub client_supports_inlay_refresh: bool,
    pub client_supports_codelens_refresh: bool,
}

/// The root of the workspace: the path of the root URI, else the root path.
pub open spec fn root_of(uri_path: Option<PathModel>, root_path: Option<Seq<char>>) -> Option<
    PathModel,
> {
    match (uri_path, root_path) {
        (Some(path), _) => Some(path),
        (None, Some(path)) => Some(PathModel::Text(path)),
        (None, None) => None,
    }
}

/// The answer to a request for inlay hints has some for this file.
pub open spec fn serves_hints(state: ServerState, file_key: Option<Seq<char>>) -> bool {
    &&& state.workspace_root is Some
    &&& state.profile_data matches Some(data) && (file_key matches Some(key)
        && data.line_costs@.contains_key(key))
}

impl ServerState {
    /// The state before initialization.
    pub fn new() -> (r: ServerState)
        ensures
            is_default(r.config),
            r.profile_data is None,
            r.workspace_root is None,
            !r.client_supports_inlay_refresh,
            !r.client_supports_codelens_refresh,
    {
        ServerState {
            config: Config::default(),
            profile_data: None,
            workspace_root: None,
            client_supports_inlay_refresh: false,
            client_supports_codelens_refresh: false,
        }
    }

    /// Takes over what the client says of itself, given the path of the root URI. The
    /// root path counts only where there is no such path, and the default options where
    /// the client gives none that can be read.
    pub fn set_up(
        &mut self,
        uri_path: Option<FilePath>,
        root_path: Option<String>,
        config: Option<Config>,
        inlay_refresh: Option<bool>,
        codelens_refresh: Option<bool>,
    )
        ensures
            path_of(final(self).workspace_root) == root_of(path_of(uri_path), text_of(root_path)),
            match config {
                Some(config) => final(self).config == config,
                None => is_default(final(self).config),
            },
            final(self).client_supports_inlay_refresh == (inlay_refresh == Some(true)),
            final(self).client_supports_codelens_refresh == (codelens_refresh == Some(true)),
            final(self).profile_data == old(self).profile_data,
    {
        self.config = match config {
            Some(config) => config,
            None => Config::default(),
        };
        self.workspace_root = match uri_path {
            Some(path) => Some(path),
            None => match root_path {
                Some(path) => Some(FilePath::Text(path)),
                None => None,
            },
        };
        self.client_supports_inlay_refresh = match inlay_refresh {
            Some(supported) => supported,
            None => false,
        };
        self.client_supports_codelens_refresh = match codelens_refresh {
            Some(supported) => supported,
            None => false,
        };
    }

    /// Takes over what the client says of itself, and answers with what the server can
    /// do. Which of the paths that the root URI stands for on some machine is meant is not
    /// stated.
    pub fn initialize(
        &mut self,
        root_uri: Option<&str>,
        root_path: Option<String>,
        config: Option<Config>,
        inlay_refresh: Option<bool>,
        codelens_refresh: Option<bool>,
    ) -> (r: Capabilities)
        ensures
            r == (Capabilities {
                inlay_hint_resolve: Some(false),
                code_lens_resolve: Some(false),
                sync_open_close: Some(true),
                sync_changes: Some(false),
            }),
            match root_uri {
                Some(uri) => exists|machine: nat|
                    path_of(final(self).workspace_root) == root_of(
                        read_path(#[trigger] file_path(uri@, machine)),
                        text_of(root_path),
                    ),
                None => path_of(final(self).workspace_root) == root_of(None, text_of(root_path)),
            },
            match config {
                Some(config) => final(self).config == config,
                None => is_default(final(self).config),
            },
            final(self).client_supports_inlay_refresh == (inlay_refresh == Some(true)),
            final(self).client_supports_codelens_refresh == (codelens_refresh == Some(true)),
            final(self).profile_data == old(self).profile_data,
    {
        let uri_path: Option<FilePath> = match root_uri {
            Some(uri) => path_from_bytes(file_path_of(uri)),
            None => None,
        };
        self.set_up(uri_path, root_path, config, inlay_refresh, codelens_refresh);
        Capabilities {
            inlay_hint_resolve: Some(false),
            code_lens_resolve: Some(false),
            sync_open_close: Some(true),
            sync_changes: Some(false),
        }
    }

    /// What is to be done, given the profile files that were discovered: the most
    /// recently modified one is read.
    pub fn plan_load(&self, files: &[FileStat]) -> (r: LoadPlan)
        ensures
            r == if self.workspace_root is None {
                LoadPlan::Keep
            } else if files@.len() == 0 {
                LoadPlan::Clear
            } else {
                match newest(files.deep_view()) {
                    Some(i) => LoadPlan::Read(i as usize),
                    None => LoadPlan::Keep,
                }
            },
            r matches LoadPlan::Read(i) ==> i < files@.len(),
    {
        if self.workspace_root.is_none() {
            return LoadPlan::Keep;
        }
        if files.len() == 0 {
            return LoadPlan::Clear;
        }
        match find_newest(files) {
            Some(i) => LoadPlan::Read(i),
            None => LoadPlan::Keep,
        }
    }

    /// Drops the profile.
    pub fn clear_profile(&mut self)
        ensures
            *final(self) == (ServerState { profile_data: None, ..*old(self) }),
    {
        self.profile_data = None;
    }

    /// Takes over the analysis of a profile.
    pub fn set_profile(&mut self, data: ProfileData)
        ensures
            *final(self) == (ServerState { profile_data: Some(data), ..*old(self) }),
    {
        self.profile_data = Some(data);
    }

    /// Takes over what came of a profile's bytes: an analysis replaces the one before, and
    /// where there is none, what is loaded stays.
    pub fn take_loaded(&mut self, loaded: Loaded)
        ensures
            match loaded {
                Loaded::Data(data) => *final(self) == (ServerState {
                    profile_data: Some(data),
                    ..*old(self)
                }),
                Loaded::Failed(_) => *final(self) == *old(self),
                Loaded::Overflow => *final(self) == *old(self),
            },
    {
        match loaded {
            Loaded::Data(data) => {
                self.set_profile(data);
            },
            Loaded::Failed(_) => {},
            Loaded::Overflow => {},
        }
    }

    /// Whether the profiles are to be loaded again, given the profile files that were
    /// discovered in this poll cycle.
    pub fn poll(&self, watcher: &mut FileWatcher, files: &[FileStat]) -> (r: bool)
        ensures
            self.workspace_root is None ==> !r && final(watcher)@ == old(watcher)@,
            self.workspace_root is Some ==> r == is_changed(
                old(watcher)@.mtimes,
                told(files.deep_view(), old(watcher)@.rules),
            ) && final(watcher)@ == (WatcherModel {
                mtimes: times(told(files.deep_view(), old(watcher)@.rules)),
                ..old(watcher)@
            }),
    {
        if self.workspace_root.is_none() {
            return false;
        }
        watcher.check_for_changes(files)
    }

    /// The answer to a request for inlay hints.
    pub fn inlay_hint(&self, file_key: Option<&str>, range: &Range) -> (r: Option<Vec<InlayHint>>)
        requires
            serves_hints(
                *self,
                match file_key {
                    Some(key) => Some(key@),
                    None => None,
                },
            ) ==> range.start.line <= range.end.line,
        ensures
            match r {
                Some(hints) => hints@.len() > 0 && self.workspace_root is Some && (
                self.profile_data matches Some(data) && (file_key matches Some(key) && shows_hints(
                    hints@,
                    data,
                    self.config,
                    key@,
                    *range,
                ))),
                None => self.workspace_root is None || self.profile_data is None || file_key is None
                    || (forall|line: int| !#[trigger]
                    is_hinted(
                        self.profile_data.unwrap(),
                        self.config,
                        file_key.unwrap()@,
                        *range,
                        line,
                    )),
            },
    {
        match (&self.profile_data, &self.workspace_root, file_key) {
            (Some(data), Some(_), Some(key)) => {
                if !data.line_costs.contains_key(key) {
                    return None;
                }
                let hints: Vec<InlayHint> = generate_inlay_hints(data, &self.config, key, range);
                if hints.len() == 0 {
                    None
                } else {
                    Some(hints)
                }
            },
            _ => None,
        }
    }

    /// The answer to a request for code lenses.
    pub fn code_lens(&self, file_key: Option<&str>) -> (r: Option<Vec<CodeLens>>)
        ensures
            match r {
                Some(lenses) => lenses@.len() > 0 && self.workspace_root is Some && (
                self.profile_data matches Some(data) && (file_key matches Some(key)
                    && shows_hotspots(
                    lenses@,
                    chosen(
                        data.hotspots@,
                        key@,
                        self.config.display.max_code_lenses as nat,
                    ),
                    data,
                    key@,
                ))),
                None => self.workspace_root is None || self.profile_data is None || file_key is None
                    || chosen(
                    self.profile_data.unwrap().hotspots@,
                    file_key.unwrap()@,
                    self.config.display.max_code_lenses as nat,
                ).len() == 0,
            },
    {
        match (&self.profile_data, &self.workspace_root, file_key) {
            (Some(data), Some(_), Some(key)) => {
                let lenses: Vec<CodeLens> = generate_code_lenses(data, &self.config, key);
                if lenses.len() == 0 {
                    None
                } else {
                    Some(lenses)
                }
            },
            _ => None,
        }
    }
}

/// Parses a profile and analyzes it.
pub fn load_profile(bytes: &[u8], max_hotspots: usize) -> (r: Loaded)
    ensures
        match r {
            Loaded::Data(data) => bytes@.len() > 0 && (payload(bytes@) matches Some(message) && (
            decoded(message) matches Ok(p) && sums_fit(p) && analyzed(
                data,
                p,
                max_hotspots as nat,
            ))),
            Loaded::Overflow => bytes@.len() > 0 && (payload(bytes@) matches Some(message) && (
            decoded(message) matches Ok(p) && !sums_fit(p))),
            Loaded::Failed(ParseError::Empty) => bytes@.len() == 0,
            Loaded::Failed(ParseError::Io(_)) => bytes@.len() > 0 && payload(bytes@) is None,
            Loaded::Failed(ParseError::Decode(cause)) => bytes@.len() > 0 && (payload(
                bytes@,
            ) matches Some(message) && decoded(message) matches Err(fault) && fault == cause),
        },
{
    match parse_profile(bytes) {
        Ok(profile) => match checked_analyze_profile(&profile, max_hotspots) {
            Some(data) => Loaded::Data(data),
            None => Loaded::Overflow,
        },
        Err(error) => Loaded::Failed(error),
    }
}

/// A document at a path of names below the workspace has that path as its key; one without
/// a path has none. Where either path is not Unicode, and the other is, there is no key
/// either.
pub proof fn lemma_key_of_document(root: Seq<char>, list: Seq<Seq<char>>, raw: Seq<u8>)
    requires
        root.len() > 0,
        list.len() > 0,
        forall|i: int| 0 <= i < list.len() ==> is_name(#[trigger] list[i]),
    ensures
        file_key(
            Some(PathModel::Text(root.push('/') + joined(list, '/'))),
            PathModel::Text(root),
            PathRules::Unix,
        ) == Some(joined(list, '/')),
        file_key(None, PathModel::Text(root), PathRules::Unix) is None,
        file_key(Some(PathModel::Raw(raw)), PathModel::Text(root), PathRules::Unix) is None,
        file_key(Some(PathModel::Text(root)), PathModel::Raw(raw), PathRules::Unix) is None,
{
    lemma_below_directory(root, list);
}

/// A document whose path does not start with the components of the workspace's has no key.
pub proof fn lemma_no_key_outside(path: Seq<char>, root: Seq<char>, i: int)
    requires
        0 <= i < components(root).len(),
        i >= components(path).len() || components(root)[i] != components(path)[i],
    ensures
        file_key(Some(PathModel::Text(path)), PathModel::Text(root), PathRules::Unix) is None,
{
    lemma_below_exactly(path, root);
}

/// The bytes of a path are read as text where they are well-formed, and kept where they
/// are not.
pub proof fn lemma_read_path(bytes: Seq<u8>)
    ensures
        valid_utf8(bytes) ==> read_path(Some(bytes)) == Some(PathModel::Text(decode_utf8(bytes))),
        !valid_utf8(bytes) ==> read_path(Some(bytes)) == Some(PathModel::Raw(bytes)),
        read_path(None) is None,
{
}

/// The workspace is at the path of the root URI; only without one, at the root path.
pub proof fn lemma_root_of(uri_path: PathModel, root_path: Seq<char>)
    ensures
        root_of(Some(uri_path), Some(root_path)) == Some(uri_path),
        root_of(Some(uri_path), None) == Some(uri_path),
        root_of(None, Some(root_path)) == Some(PathModel::Text(root_path)),
        root_of(None, None) is None,
{
}

/// A character for each byte, and back, is the bytes.
pub proof fn lemma_byte_text(bytes: Seq<u8>)
    ensures
        text_bytes(byte_text(bytes)) == bytes,
        byte_text(bytes).len() == bytes.len(),
        forall|i: int|
            0 <= i < bytes.len() ==> (#[trigger] byte_text(bytes)[i]) as u32 == bytes[i] as u32,
{
    assert forall|i: int| 0 <= i < bytes.len() implies (#[trigger] byte_text(bytes)[i]) as u32
        == bytes[i] as u32 && (byte_text(bytes)[i] as u8) == bytes[i] by {}
    assert(text_bytes(byte_text(bytes)) =~= bytes);
}

/// A document below a workspace whose path is not Unicode has what follows the workspace's
/// path as its key, where that is Unicode, and none where it is not.
pub proof fn lemma_key_of_raw_path(root: Seq<u8>, tail: Seq<u8>)
    requires
        root.len() > 0,
        forall|i: int|
            0 <= i < pieces(byte_text(tail), '/').len() ==> is_name(
                #[trigger] pieces(byte_text(tail), '/')[i],
            ),
    ensures
        ({
            let key = file_key(
                Some(PathModel::Raw(root.push(47) + tail)),
                PathModel::Raw(root),
                PathRules::Unix,
            );
            &&& valid_utf8(tail) ==> key == Some(decode_utf8(tail))
            &&& !valid_utf8(tail) ==> key is None
        }),
{
    let text = byte_text(tail);
    let list = pieces(text, '/');
    lemma_pieces_some(text, '/');
    lemma_joined_pieces(text, '/');
    lemma_byte_text(tail);
    assert(byte_text(root.push(47) + tail) =~= byte_text(root).push('/') + text);
    lemma_below_directory(byte_text(root), list);
}

} // verus!
