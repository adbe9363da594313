use dumpbin::dumpbin::{candidate_subkey, dumpbin_path_for, resolve, Arch, Dependents};
use dumpbin::err::{DumpBinError, Section};

#[test]
fn resolve_with_no_candidates_is_not_found() {
    let candidates: Vec<Option<String>> = Vec::new();
    assert!(matches!(resolve(&candidates), Err(DumpBinError::NotFound)));
}

#[test]
fn resolve_with_no_matching_candidate_is_not_found() {
    let candidates: Vec<Option<String>> = vec![None, None, None];
    assert!(matches!(resolve(&candidates), Err(DumpBinError::NotFound)));
}

#[test]
fn resolve_with_one_match_returns_it() {
    let candidates = vec![None, Some("C:\\VC\\bin\\dumpbin.exe".to_string()), None];
    assert_eq!(resolve(&candidates).unwrap(), "C:\\VC\\bin\\dumpbin.exe");
}

#[test]
fn resolve_with_two_matches_returns_the_later_one() {
    let candidates = vec![
        Some("C:\\old\\dumpbin.exe".to_string()),
        None,
        Some("C:\\new\\dumpbin.exe".to_string()),
        None,
    ];
    assert_eq!(resolve(&candidates).unwrap(), "C:\\new\\dumpbin.exe");
}

#[test]
fn candidate_subkey_is_version_then_arch_twice() {
    assert_eq!(candidate_subkey("19.0", Arch::X64), "19.0\\x64\\x64");
    assert_eq!(candidate_subkey("14.0", Arch::X86), "14.0\\x86\\x86");
    assert_eq!(candidate_subkey("19.0", Arch::Arm64), "19.0\\arm64\\arm64");
    assert_eq!(candidate_subkey("19.0", Arch::Arm), "19.0\\arm\\arm");
}

#[test]
fn dumpbin_path_replaces_the_file_name() {
    assert_eq!(
        dumpbin_path_for("C:\\VC\\bin\\cl.exe"),
        "C:\\VC\\bin\\dumpbin.exe"
    );
    assert_eq!(dumpbin_path_for("tools/cl.exe"), "tools/dumpbin.exe");
    assert_eq!(dumpbin_path_for("cl.exe"), "dumpbin.exe");
}

#[test]
fn default_report_is_empty() {
    let d = Dependents::default();
    assert!(d.libraries.is_empty());
    assert!(d.summary.is_empty());
}

#[test]
fn error_messages_name_the_failure() {
    assert_eq!(DumpBinError::NotFound.message(), "No DumpBin found!");
    assert_eq!(
        DumpBinError::Io("broken pipe".to_string()).message(),
        "I/O error: broken pipe"
    );
    assert_eq!(
        DumpBinError::Configuration("bad key".to_string()).message(),
        "Configuration error: bad key"
    );
    let e = DumpBinError::MissingSection {
        section: Section::Dependencies,
        raw: "xyz".to_string(),
    };
    assert_eq!(e.message(), "Cannot find dependencies: xyz");
    let e = DumpBinError::MissingSection {
        section: Section::Summary,
        raw: "xyz".to_string(),
    };
    assert_eq!(e.message(), "Cannot find summary: xyz");
}

#[test]
fn string_errors_become_configuration_errors() {
    let e = DumpBinError::from("registry unavailable".to_string());
    assert!(matches!(e, DumpBinError::Configuration(ref s) if s == "registry unavailable"));
}
