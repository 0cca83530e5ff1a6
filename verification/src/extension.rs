//! The editor's side: which server binary is fetched, and under which name.

use crate::text::same_text;
use vstd::prelude::*;

verus! {

/// The operating systems that the editor runs on.
#[derive(Debug, Clone, Copy, PartialEq, Eq, Structural)]
pub enum Os {
    Mac,
    Linux,
    Windows,
}

/// The architectures that the editor runs on.
#[derive(Debug, Clone, Copy, PartialEq, Eq, Structural)]
pub enum Architecture {
    Aarch64,
    X86,
    X8664,
}

/// A file of a release.
#[derive(Debug, Clone)]
pub struct Asset {
    pub name: String,
    pub download_url: String,
}

pub open spec fn os_text(os: Os) -> Seq<char> {
    match os {
        Os::Mac => "apple-darwin"@,
        Os::Linux => "unknown-linux-gnu"@,
        Os::Windows => "pc-windows-msvc"@,
    }
}

/// The name of an architecture for which there are binaries.
pub open spec fn architecture_text(architecture: Architecture) -> Option<Seq<char>> {
    match architecture {
        Architecture::Aarch64 => Some("aarch64"@),
        Architecture::X8664 => Some("x86_64"@),
        Architecture::X86 => None,
    }
}

/// The end of a program's file name.
pub open spec fn suffix_text(os: Os) -> Seq<char> {
    match os {
        Os::Windows => ".exe"@,
        _ => ""@,
    }
}

/// The name of the release file for a platform.
pub open spec fn asset_text(architecture: Seq<char>, os: Os) -> Seq<char> {
    "go-profile-lsp-"@ + architecture + "-"@ + os_text(os) + suffix_text(os)
}

/// The name under which the binary is stored.
pub open spec fn binary_text(os: Os) -> Seq<char> {
    "go-profile-lsp"@ + suffix_text(os)
}

/// The first file of a release with the given name.
pub open spec fn asset_index(assets: Seq<Asset>, name: Seq<char>, from: nat) -> Option<nat>
    decreases assets.len() - from,
{
    if from >= assets.len() {
        None
    } else if assets[from as int].name@ == name {
        Some(from)
    } else {
        asset_index(assets, name, from + 1)
    }
}

/// How the server's binary is come by.
#[derive(Debug, Clone)]
pub enum BinaryPlan {
    /// The binary that was fetched before is still there.
    Use(String),
    /// The release file is fetched and stored.
    Fetch { asset_name: String, binary_path: String },
}

fn suffix_of(os: Os) -> (r: &'static str)
    ensures
        r@ == suffix_text(os),
{
    match os {
        Os::Windows => ".exe",
        _ => "",
    }
}

/// The name of the release file for a platform, or an error where there is none.
pub fn asset_name(os: Os, architecture: Architecture) -> (r: Result<String, String>)
    ensures
        match (r, architecture_text(architecture)) {
            (Ok(name), Some(text)) => name@ == asset_text(text, os),
            (Err(error), None) => error@ == "unsupported architecture"@,
            _ => false,
        },
{
    let text: &str = match architecture {
        Architecture::Aarch64 => "aarch64",
        Architecture::X8664 => "x86_64",
        Architecture::X86 => {
            return Err("unsupported architecture".to_string());
        },
    };
    let mut r: String = "go-profile-lsp-".to_string();
    r.push_str(text);
    r.push_str("-");
    r.push_str(
        match os {
            Os::Mac => "apple-darwin",
            Os::Linux => "unknown-linux-gnu",
            Os::Windows => "pc-windows-msvc",
        },
    );
    r.push_str(suffix_of(os));
    Ok(r)
}

/// The name under which the binary is stored.
pub fn binary_path(os: Os) -> (r: String)
    ensures
        r@ == binary_text(os),
{
    let mut r: String = "go-profile-lsp".to_string();
    r.push_str(suffix_of(os));
    r
}

/// The first file of a release with the given name, or an error where there is none.
pub fn select_asset(assets: &Vec<Asset>, name: &str) -> (r: Result<usize, String>)
    ensures
        match (r, asset_index(assets@, name@, 0)) {
            (Ok(i), Some(at)) => i == at && i < assets@.len(),
            (Err(error), None) => error@ == "no asset found matching "@ + name@,
            _ => false,
        },
{
    let mut i: usize = 0;
    while i < assets.len()
        invariant
            i <= assets@.len(),
            asset_index(assets@, name@, 0) == asset_index(assets@, name@, i as nat),
        decreases assets.len() - i,
    {
        if same_text(assets[i].name.as_str(), name) {
            return Ok(i);
        }
        i += 1;
    }
    let mut error: String = "no asset found matching ".to_string();
    error.push_str(name);
    Err(error)
}

/// The arguments that the server is started with.
pub fn server_arguments() -> (r: Vec<String>)
    ensures
        r.deep_view() == seq!["--stdio"@],
{
    let mut r: Vec<String> = Vec::new();
    r.push("--stdio".to_string());
    assert(r.deep_view() =~= seq!["--stdio"@]);
    r
}

/// The editor's extension: where the binary was stored.
#[derive(Debug)]
pub struct GoProfileExtension {
    pub cached_binary_path: Option<String>,
}

impl GoProfileExtension {
    /// An extension that has fetched nothing.
    pub fn new() -> (r: GoProfileExtension)
        ensures
            r.cached_binary_path is None,
    {
        GoProfileExtension { cached_binary_path: None }
    }

    /// How the binary is come by, given the path of a local one where the settings name
    /// one, and whether the one that was stored still exists. A local binary comes first.
    pub fn plan(
        &self,
        configured: Option<&str>,
        cached_exists: bool,
        os: Os,
        architecture: Architecture,
    ) -> (r: Result<BinaryPlan, String>)
        ensures
            match (configured, self.cached_binary_path, architecture_text(architecture)) {
                (Some(path), _, _) => r matches Ok(BinaryPlan::Use(used)) && used@ == path@,
                (_, Some(path), _) if cached_exists => r matches Ok(BinaryPlan::Use(used))
                    && used@ == path@,
                (_, _, None) => r matches Err(error) && error@ == "unsupported architecture"@,
                (_, _, Some(text)) => r matches Ok(BinaryPlan::Fetch { asset_name, binary_path })
                    && asset_name@ == asset_text(text, os) && binary_path@ == binary_text(os),
            },
    {
        match configured {
            Some(path) => {
                return Ok(BinaryPlan::Use(path.to_string()));
            },
            None => {},
        }
        match &self.cached_binary_path {
            Some(path) => {
                if cached_exists {
                    return Ok(BinaryPlan::Use(path.as_str().to_string()));
                }
            },
            None => {},
        }
        match asset_name(os, architecture) {
            Ok(asset_name) => Ok(BinaryPlan::Fetch { asset_name, binary_path: binary_path(os) }),
            Err(error) => Err(error),
        }
    }

    /// Takes note of where the binary was stored.
    pub fn store(&mut self, path: String)
        ensures
            final(self).cached_binary_path == Some(path),
    {
        self.cached_binary_path = Some(path);
    }
}

/// Operating systems have different release files.
pub proof fn lemma_assets_distinct(a: Seq<char>, os: Os, other: Os)
    requires
        asset_text(a, os) == asset_text(a, other),
    ensures
        os == other,
{
    reveal_strlit("apple-darwin");
    reveal_strlit("unknown-linux-gnu");
    reveal_strlit("pc-windows-msvc");
    reveal_strlit(".exe");
    reveal_strlit("");
    let n = "go-profile-lsp-"@.len() + a.len() + "-"@.len();
    assert(asset_text(a, os)[n as int] == os_text(os)[0]);
    assert(asset_text(a, other)[n as int] == os_text(other)[0]);
}

/// The release files: one for each pair of a known architecture and an operating system,
/// programs of Windows with their ending.
pub proof fn lemma_release_files()
    ensures
        architecture_text(Architecture::Aarch64) == Some("aarch64"@),
        architecture_text(Architecture::X8664) == Some("x86_64"@),
        architecture_text(Architecture::X86) is None,
        forall|a: Seq<char>| #[trigger]
            asset_text(a, Os::Mac) == "go-profile-lsp-"@ + a + "-apple-darwin"@,
        forall|a: Seq<char>| #[trigger]
            asset_text(a, Os::Linux) == "go-profile-lsp-"@ + a + "-unknown-linux-gnu"@,
        forall|a: Seq<char>| #[trigger]
            asset_text(a, Os::Windows) == "go-profile-lsp-"@ + a + "-pc-windows-msvc.exe"@,
        binary_text(Os::Mac) == "go-profile-lsp"@,
        binary_text(Os::Linux) == "go-profile-lsp"@,
        binary_text(Os::Windows) == "go-profile-lsp.exe"@,
{
    reveal_strlit("");
    reveal_strlit("-");
    reveal_strlit(".exe");
    reveal_strlit("apple-darwin");
    reveal_strlit("-apple-darwin");
    reveal_strlit("unknown-linux-gnu");
    reveal_strlit("-unknown-linux-gnu");
    reveal_strlit("pc-windows-msvc");
    reveal_strlit("-pc-windows-msvc.exe");
    reveal_strlit("go-profile-lsp");
    reveal_strlit("go-profile-lsp.exe");
    assert forall|a: Seq<char>| #[trigger]
        asset_text(a, Os::Mac) == "go-profile-lsp-"@ + a + "-apple-darwin"@ by {
        assert("-"@ + "apple-darwin"@ =~= "-apple-darwin"@);
        assert(asset_text(a, Os::Mac) =~= "go-profile-lsp-"@ + a + ("-"@ + "apple-darwin"@));
    }
    assert forall|a: Seq<char>| #[trigger]
        asset_text(a, Os::Linux) == "go-profile-lsp-"@ + a + "-unknown-linux-gnu"@ by {
        assert("-"@ + "unknown-linux-gnu"@ =~= "-unknown-linux-gnu"@);
        assert(asset_text(a, Os::Linux) =~= "go-profile-lsp-"@ + a + ("-"@
            + "unknown-linux-gnu"@));
    }
    assert forall|a: Seq<char>| #[trigger]
        asset_text(a, Os::Windows) == "go-profile-lsp-"@ + a + "-pc-windows-msvc.exe"@ by {
        assert("-"@ + "pc-windows-msvc"@ + ".exe"@ =~= "-pc-windows-msvc.exe"@);
        assert(asset_text(a, Os::Windows) =~= "go-profile-lsp-"@ + a + ("-"@ + "pc-windows-msvc"@
            + ".exe"@));
    }
    assert(binary_text(Os::Mac) =~= "go-profile-lsp"@);
    assert(binary_text(Os::Linux) =~= "go-profile-lsp"@);
    assert(binary_text(Os::Windows) =~= "go-profile-lsp.exe"@);
}

/// The file that is chosen has the name, and none before it does; none is chosen only
/// where no file has the name.
pub proof fn lemma_first_asset(assets: Seq<Asset>, name: Seq<char>, from: nat)
    ensures
        match asset_index(assets, name, from) {
            Some(i) => from <= i < assets.len() && assets[i as int].name@ == name && forall|k: int|
                from <= k < i ==> (#[trigger] assets[k]).name@ != name,
            None => forall|k: int|
                from <= k < assets.len() ==> (#[trigger] assets[k]).name@ != name,
        },
    decreases assets.len() - from,
{
    if from < assets.len() && assets[from as int].name@ != name {
        lemma_first_asset(assets, name, from + 1);
    }
}

} // verus!
