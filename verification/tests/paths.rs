use presse::cli::args::{check_press_output, output_dirs_to_create};
use presse::{resolve_merge_path_output, resolve_press_path_output};
use std::path::{Path, PathBuf};

/// Every string over a small alphabet, up to the given length.
fn all_paths(max_len: usize) -> Vec<String> {
    let alphabet = ['a', '.', '/', 'b'];
    let mut out = vec![String::new()];
    let mut layer = vec![String::new()];
    for _ in 0..max_len {
        let mut next = Vec::new();
        for s in &layer {
            for c in alphabet {
                let mut t = s.clone();
                t.push(c);
                next.push(t);
            }
        }
        out.extend(next.iter().cloned());
        layer = next;
    }
    out
}

/// The standard library's answer for a compressed output without `-o`.
fn std_press_default(p: &str) -> Option<String> {
    let path = PathBuf::from(p);
    let stem = path.file_stem()?.to_str()?.to_string();
    let mut out = path.clone();
    out.set_file_name(format!("{}_compressed.pdf", stem));
    Some(out.to_str().unwrap().to_string())
}

#[test]
fn press_default_matches_std_paths() {
    for p in all_paths(6) {
        if let Some(expected) = std_press_default(&p) {
            let got = resolve_press_path_output(&p, &None, false);
            assert_eq!(got, expected, "input {:?}", p);
        }
    }
}

#[test]
fn press_into_directory_matches_std_paths() {
    for p in all_paths(5) {
        let path = PathBuf::from(&p);
        if let Some(stem) = path.file_stem() {
            for dir in ["out", "out/", "/", "", "a/./", "."] {
                let expected = PathBuf::from(dir).join(format!("{}_compressed.pdf", stem.to_str().unwrap()));
                let got = resolve_press_path_output(&p, &Some(dir.to_string()), true);
                assert_eq!(got, expected.to_str().unwrap(), "input {:?} dir {:?}", p, dir);
            }
        }
    }
}

#[test]
fn parent_directories_match_std_paths() {
    for p in all_paths(6) {
        let mut expected = Vec::new();
        if let Some(parent) = Path::new(&p).parent() {
            if !parent.as_os_str().is_empty() {
                expected.push(parent.to_str().unwrap().to_string());
            }
        }
        if p.ends_with('/') {
            expected.push(p.clone());
        }
        assert_eq!(output_dirs_to_create(&p), expected, "output {:?}", p);
    }
}

#[test]
fn press_default_beside_input() {
    assert_eq!(resolve_press_path_output(&"test.pdf".to_string(), &None, false), "test_compressed.pdf");
    assert_eq!(
        resolve_press_path_output(&"docs/report.v2.pdf".to_string(), &None, false),
        "docs/report.v2_compressed.pdf"
    );
    assert_eq!(resolve_press_path_output(&"/tmp/.hidden".to_string(), &None, false), "/tmp/.hidden_compressed.pdf");
}

#[test]
fn press_explicit_file_is_kept() {
    let out = Some("small.pdf".to_string());
    assert_eq!(resolve_press_path_output(&"document.pdf".to_string(), &out, false), "small.pdf");
}

#[test]
fn press_into_directory() {
    let out = Some("compressed/".to_string());
    assert_eq!(
        resolve_press_path_output(&"a/document.pdf".to_string(), &out, false),
        "compressed/document_compressed.pdf"
    );
    let out = Some("compressed".to_string());
    assert_eq!(
        resolve_press_path_output(&"document.pdf".to_string(), &out, true),
        "compressed/document_compressed.pdf"
    );
}

#[test]
fn merge_outputs() {
    assert_eq!(resolve_merge_path_output(&None, false, false), "merged.pdf");
    assert_eq!(resolve_merge_path_output(&None, false, true), "merged.pdf");
    assert_eq!(resolve_merge_path_output(&Some("result.pdf".to_string()), false, true), "result.pdf");
    assert_eq!(resolve_merge_path_output(&Some("output/".to_string()), false, false), "output/merged.pdf");
    assert_eq!(resolve_merge_path_output(&Some("output".to_string()), true, true), "output/merged.pdf");
}

#[test]
fn several_inputs_need_a_directory() {
    assert!(check_press_output(2, &Some("out.pdf".to_string()), false).is_err());
    assert!(check_press_output(2, &Some("out/".to_string()), false).is_ok());
    assert!(check_press_output(2, &Some("out".to_string()), true).is_ok());
    assert!(check_press_output(2, &None, false).is_ok());
    assert!(check_press_output(1, &Some("out.pdf".to_string()), false).is_ok());
}

#[test]
fn default_copy_never_overwrites_input() {
    for p in all_paths(6) {
        if Path::new(&p).file_name().is_some() {
            let out = resolve_press_path_output(&p, &None, false);
            assert_ne!(out, p);
            assert_ne!(Path::new(&out).file_name(), Path::new(&p).file_name());
        }
    }
}
