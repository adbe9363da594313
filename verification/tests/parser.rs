use dumpbin::dumpbin::parse_dependents;
use dumpbin::err::{DumpBinError, Section};

#[test]
fn parses_report_with_both_markers() {
    let raw = "Image has the following dependencies:\n KERNEL32.dll   USER32.dll \nSummary\n\n 7 KERNEL32.dll\n";
    let d = parse_dependents(raw).unwrap();
    assert_eq!(d.libraries, vec!["KERNEL32.dll".to_string(), "USER32.dll".to_string()]);
    assert_eq!(d.summary, vec![(7u32, "KERNEL32.dll".to_string())]);
}

#[test]
fn dependency_tokens_keep_case_and_order() {
    let raw = "Image has the following dependencies: KERNEL32.dll   USER32.dll Summary";
    let d = parse_dependents(raw).unwrap();
    assert_eq!(d.libraries, vec!["KERNEL32.dll".to_string(), "USER32.dll".to_string()]);
    assert!(d.summary.is_empty());
}

#[test]
fn duplicate_libraries_are_preserved() {
    let raw = "Image has the following dependencies: a.dll a.dll b.dll Summary";
    let d = parse_dependents(raw).unwrap();
    assert_eq!(
        d.libraries,
        vec!["a.dll".to_string(), "a.dll".to_string(), "b.dll".to_string()]
    );
}

#[test]
fn markers_are_found_case_insensitively() {
    let raw = "IMAGE HAS THE FOLLOWING DEPENDENCIES: a.dll summary";
    let d = parse_dependents(raw).unwrap();
    assert_eq!(d.libraries, vec!["a.dll".to_string()]);
}

#[test]
fn missing_dependency_marker_is_reported() {
    let raw = "no dependency section here\nSummary\n 1 a.dll";
    match parse_dependents(raw) {
        Err(DumpBinError::MissingSection { section, raw: echoed }) => {
            assert_eq!(section, Section::Dependencies);
            assert_eq!(echoed, raw);
        }
        other => panic!("expected a missing dependency section, got {:?}", other),
    }
}

#[test]
fn missing_both_markers_names_the_dependency_section() {
    let raw = "nothing of interest";
    match parse_dependents(raw) {
        Err(DumpBinError::MissingSection { section, raw: echoed }) => {
            assert_eq!(section, Section::Dependencies);
            assert_eq!(echoed, raw);
        }
        other => panic!("expected a missing dependency section, got {:?}", other),
    }
}

#[test]
fn missing_summary_marker_is_reported() {
    let raw = "Image has the following dependencies: a.dll b.dll";
    match parse_dependents(raw) {
        Err(DumpBinError::MissingSection { section, raw: echoed }) => {
            assert_eq!(section, Section::Summary);
            assert_eq!(echoed, raw);
        }
        other => panic!("expected a missing summary section, got {:?}", other),
    }
}

#[test]
fn summary_line_with_number_and_name() {
    let raw = "Image has the following dependencies: Summary\n7 kernel32.dll\n";
    let d = parse_dependents(raw).unwrap();
    assert_eq!(d.summary, vec![(7u32, "kernel32.dll".to_string())]);
}

#[test]
fn summary_count_defaults_to_zero_when_unparsable() {
    let raw = "Image has the following dependencies: Summary\nabc kernel32.dll\n";
    let d = parse_dependents(raw).unwrap();
    assert_eq!(d.summary, vec![(0u32, "kernel32.dll".to_string())]);
}

#[test]
fn summary_line_with_one_token_is_skipped() {
    let raw = "Image has the following dependencies: Summary\nonetoken\n3 b.dll\n";
    let d = parse_dependents(raw).unwrap();
    assert_eq!(d.summary, vec![(3u32, "b.dll".to_string())]);
}

#[test]
fn summary_extra_tokens_are_ignored() {
    let raw = "Image has the following dependencies: Summary\n  12  c.dll  trailing junk\n";
    let d = parse_dependents(raw).unwrap();
    assert_eq!(d.summary, vec![(12u32, "c.dll".to_string())]);
}

#[test]
fn summary_count_overflowing_u32_defaults_to_zero() {
    let raw = "Image has the following dependencies: Summary\n4294967296 big.dll\n4294967295 fits.dll\n";
    let d = parse_dependents(raw).unwrap();
    assert_eq!(
        d.summary,
        vec![(0u32, "big.dll".to_string()), (4294967295u32, "fits.dll".to_string())]
    );
}

#[test]
fn summary_count_accepts_leading_plus_and_zeros() {
    let raw = "Image has the following dependencies: Summary\n+7 plus.dll\n0007 pad.dll\n";
    let d = parse_dependents(raw).unwrap();
    assert_eq!(
        d.summary,
        vec![(7u32, "plus.dll".to_string()), (7u32, "pad.dll".to_string())]
    );
}

#[test]
fn summary_marker_before_dependency_marker_yields_empty_libraries() {
    let raw = "Summary then Image has the following dependencies: x.dll";
    let d = parse_dependents(raw).unwrap();
    assert!(d.libraries.is_empty());
    assert_eq!(d.summary, vec![(0u32, "Image".to_string())]);
}

#[test]
fn empty_windows_yield_empty_report() {
    let raw = "Image has the following dependencies:Summary";
    let d = parse_dependents(raw).unwrap();
    assert!(d.libraries.is_empty());
    assert!(d.summary.is_empty());
}
