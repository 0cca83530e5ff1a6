use go_profile_lsp::extension::asset_name;
use go_profile_lsp::extension::binary_path;
use go_profile_lsp::extension::select_asset;
use go_profile_lsp::extension::server_arguments;
use go_profile_lsp::extension::Architecture;
use go_profile_lsp::extension::Asset;
use go_profile_lsp::extension::BinaryPlan;
use go_profile_lsp::extension::GoProfileExtension;
use go_profile_lsp::extension::Os;

#[test]
fn assets_are_named_after_the_platform() {
    assert_eq!(
        asset_name(Os::Mac, Architecture::Aarch64).unwrap(),
        "go-profile-lsp-aarch64-apple-darwin"
    );
    assert_eq!(
        asset_name(Os::Linux, Architecture::X8664).unwrap(),
        "go-profile-lsp-x86_64-unknown-linux-gnu"
    );
    assert_eq!(
        asset_name(Os::Windows, Architecture::X8664).unwrap(),
        "go-profile-lsp-x86_64-pc-windows-msvc.exe"
    );
    assert_eq!(
        asset_name(Os::Linux, Architecture::X86),
        Err("unsupported architecture".to_string())
    );
}

#[test]
fn binaries_are_programs() {
    assert_eq!(binary_path(Os::Mac), "go-profile-lsp");
    assert_eq!(binary_path(Os::Linux), "go-profile-lsp");
    assert_eq!(binary_path(Os::Windows), "go-profile-lsp.exe");
    assert_eq!(server_arguments(), vec!["--stdio"]);
}

fn asset(name: &str, url: &str) -> Asset {
    Asset {
        name: name.to_string(),
        download_url: url.to_string(),
    }
}

#[test]
fn the_first_asset_of_a_name_is_selected() {
    let assets = vec![asset("a", "1"), asset("b", "2"), asset("b", "3")];
    assert_eq!(select_asset(&assets, "b"), Ok(1));
    assert_eq!(select_asset(&assets, "c"), Err("no asset found matching c".to_string()));
}

#[test]
fn a_binary_is_fetched_once() {
    let mut extension = GoProfileExtension::new();
    let plan = extension.plan(None, true, Os::Linux, Architecture::Aarch64);
    let path = match plan {
        Ok(BinaryPlan::Fetch {
            asset_name,
            binary_path,
        }) => {
            assert_eq!(asset_name, "go-profile-lsp-aarch64-unknown-linux-gnu");
            binary_path
        }
        _ => panic!("not fetched"),
    };
    extension.store(path);
    assert!(matches!(
        extension.plan(None, true, Os::Linux, Architecture::X86),
        Ok(BinaryPlan::Use(path)) if path == "go-profile-lsp"
    ));
    assert!(matches!(
        extension.plan(None, false, Os::Linux, Architecture::Aarch64),
        Ok(BinaryPlan::Fetch { .. })
    ));
    assert!(extension.plan(None, false, Os::Linux, Architecture::X86).is_err());
}

#[test]
fn a_local_binary_comes_before_any_download() {
    let local = Some("/home/me/go-profile-lsp");
    let mut extension = GoProfileExtension::new();
    assert!(matches!(
        extension.plan(local, false, Os::Linux, Architecture::X86),
        Ok(BinaryPlan::Use(path)) if path == "/home/me/go-profile-lsp"
    ));
    extension.store("go-profile-lsp".to_string());
    assert!(matches!(
        extension.plan(local, true, Os::Mac, Architecture::Aarch64),
        Ok(BinaryPlan::Use(path)) if path == "/home/me/go-profile-lsp"
    ));
}
