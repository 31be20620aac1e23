use windows_sdk::casefix::{plan_case_fixes, CaseFix, CaseMode, FixKind, TreeFile};
use windows_sdk::directive::scan_referenced_names;

fn file(dir: &str, name: &str, refs: &[&str]) -> TreeFile {
    TreeFile {
        dir: dir.as_bytes().to_vec(),
        name: name.as_bytes().to_vec(),
        refs: refs.iter().map(|r| r.as_bytes().to_vec()).collect(),
    }
}

fn show(f: &CaseFix) -> (FixKind, String, String, String) {
    (
        f.kind,
        String::from_utf8(f.dir.clone()).unwrap(),
        String::from_utf8(f.from.clone()).unwrap(),
        String::from_utf8(f.to.clone()).unwrap(),
    )
}

fn fix(kind: FixKind, dir: &str, from: &str, to: &str) -> (FixKind, String, String, String) {
    (kind, dir.to_string(), from.to_string(), to.to_string())
}

/// The tree as it stands after the operations.
fn apply(files: &[TreeFile], fixes: &[CaseFix]) -> Vec<TreeFile> {
    let mut out: Vec<TreeFile> = files
        .iter()
        .map(|f| TreeFile { dir: f.dir.clone(), name: f.name.clone(), refs: f.refs.clone() })
        .collect();
    for f in fixes {
        let pos = out.iter().position(|t| t.dir == f.dir && t.name == f.from).unwrap();
        assert!(!out.iter().any(|t| t.dir == f.dir && t.name == f.to));
        match f.kind {
            FixKind::Rename => out[pos].name = f.to.clone(),
            FixKind::Copy => {
                let refs = out[pos].refs.clone();
                out.push(TreeFile { dir: f.dir.clone(), name: f.to.clone(), refs });
            }
        }
    }
    out
}

fn names(text: &str) -> Vec<String> {
    scan_referenced_names(text.as_bytes()).into_iter().map(|v| String::from_utf8(v).unwrap()).collect()
}

#[test]
fn scanner_finds_both_delimiters() {
    let text = "#include <windows.h>\n#include \"local/Foo.h\"\nint x;\n";
    assert_eq!(names(text), vec!["windows.h", "local/Foo.h"]);
}

#[test]
fn scanner_needs_a_space_after_the_keyword() {
    assert!(names("#include<a.h>\n").is_empty());
    assert_eq!(names("#include \t  <b.h>"), vec!["b.h"]);
}

#[test]
fn scanner_rejects_empty_and_unterminated_names() {
    assert!(names("#include <>").is_empty());
    assert!(names("#include <never").is_empty());
    assert!(names("#include").is_empty());
    assert!(names("").is_empty());
}

#[test]
fn scanner_accepts_mixed_delimiters() {
    assert_eq!(names("#include \"a.h>"), vec!["a.h"]);
    assert_eq!(names("#include <c.h\" #include <d.h>"), vec!["c.h", "d.h"]);
}

#[test]
fn lowercase_reference_renames_header() {
    let files = vec![file("include", "Windows.h", &[]), file("include", "app.h", &["windows.h"])];
    let fixes = plan_case_fixes(&files, CaseMode::Rename);
    let got: Vec<_> = fixes.iter().map(show).collect();
    assert_eq!(got, vec![fix(FixKind::Rename, "include", "Windows.h", "windows.h")]);
}

#[test]
fn mixed_case_reference_copies_header() {
    let files = vec![file("inc", "bar.h", &[]), file("inc", "user.h", &["Bar.h"])];
    let fixes = plan_case_fixes(&files, CaseMode::Rename);
    let got: Vec<_> = fixes.iter().map(show).collect();
    assert_eq!(got, vec![fix(FixKind::Copy, "inc", "bar.h", "Bar.h")]);
}

#[test]
fn both_directions_in_one_tree() {
    let files = vec![
        file("inc", "Foo.h", &[]),
        file("inc", "bar.h", &[]),
        file("inc", "main.h", &["foo.h", "Bar.h"]),
    ];
    let fixes = plan_case_fixes(&files, CaseMode::Rename);
    let got: Vec<_> = fixes.iter().map(show).collect();
    assert_eq!(
        got,
        vec![fix(FixKind::Rename, "inc", "Foo.h", "foo.h"), fix(FixKind::Copy, "inc", "bar.h", "Bar.h")]
    );
}

#[test]
fn second_run_changes_nothing() {
    let files = vec![
        file("um", "WinUser.h", &["windef.h"]),
        file("um", "WinDef.h", &[]),
        file("shared", "minwindef.h", &["WinUser.h", "MinWinDef.h"]),
        file("lib", "Kernel32.Lib", &[]),
        file("lib", "readme.txt", &[]),
        file("um", "Upper.H", &[]),
    ];
    let first = plan_case_fixes(&files, CaseMode::Rename);
    assert!(!first.is_empty());
    let after = apply(&files, &first);
    assert!(plan_case_fixes(&after, CaseMode::Rename).is_empty());
}

#[test]
fn import_libraries_are_lowercased() {
    let files = vec![
        file("lib", "Kernel32.Lib", &[]),
        file("lib", "User32.lib", &[]),
        file("lib", "GDI32.LIB", &[]),
        file("lib", "Notes.TXT", &[]),
    ];
    let got: Vec<_> = plan_case_fixes(&files, CaseMode::Rename).iter().map(show).collect();
    assert_eq!(
        got,
        vec![
            fix(FixKind::Rename, "lib", "Kernel32.Lib", "kernel32.lib"),
            fix(FixKind::Rename, "lib", "User32.lib", "user32.lib"),
        ]
    );
}

#[test]
fn existing_lowercase_file_is_not_overwritten() {
    let files = vec![file("inc", "Foo.h", &[]), file("inc", "foo.h", &[]), file("inc", "FOO.h", &[])];
    assert!(plan_case_fixes(&files, CaseMode::Rename).is_empty());
    let files = vec![file("inc", "Foo.h", &[]), file("inc", "FOO.h", &[])];
    let got: Vec<_> = plan_case_fixes(&files, CaseMode::Rename).iter().map(show).collect();
    assert_eq!(got, vec![fix(FixKind::Rename, "inc", "Foo.h", "foo.h")]);
}

#[test]
fn reference_directory_is_dropped() {
    let files = vec![file("inc/sys", "types.h", &[]), file("inc", "a.h", &["sys/Types.h", "..\\sys\\TYPES.h"])];
    let got: Vec<_> = plan_case_fixes(&files, CaseMode::Rename).iter().map(show).collect();
    assert_eq!(
        got,
        vec![fix(FixKind::Copy, "inc/sys", "types.h", "Types.h"), fix(FixKind::Copy, "inc/sys", "types.h", "TYPES.h")]
    );
}

#[test]
fn every_directory_with_the_header_gets_the_name() {
    let files = vec![file("a", "x.h", &[]), file("b", "X.h", &[]), file("c", "y.h", &["X.h"])];
    let got: Vec<_> = plan_case_fixes(&files, CaseMode::Rename).iter().map(show).collect();
    assert_eq!(
        got,
        vec![fix(FixKind::Rename, "b", "X.h", "x.h"), fix(FixKind::Copy, "a", "x.h", "X.h"), fix(FixKind::Copy, "b", "x.h", "X.h")]
    );
}

#[test]
fn references_of_other_files_are_ignored() {
    let files = vec![file("inc", "foo.h", &[]), file("inc", "notes.txt", &["Foo.h"])];
    assert!(plan_case_fixes(&files, CaseMode::Rename).is_empty());
}

#[test]
fn empty_tree_needs_nothing() {
    assert!(plan_case_fixes(&Vec::new(), CaseMode::Rename).is_empty());
}

#[test]
fn windows_header_scenario() {
    let text = b"#pragma once\n#include <windows.h>\n";
    let refs = scan_referenced_names(text);
    let files = vec![
        TreeFile { dir: b"include".to_vec(), name: b"Windows.h".to_vec(), refs: Vec::new() },
        TreeFile { dir: b"include".to_vec(), name: b"app.h".to_vec(), refs },
    ];
    let fixes = plan_case_fixes(&files, CaseMode::Rename);
    let after = apply(&files, &fixes);
    assert!(after.iter().any(|f| f.dir == b"include".to_vec() && f.name == b"windows.h".to_vec()));
    assert_eq!(fixes.len(), 1);
    assert_eq!(fixes[0].kind, FixKind::Rename);
    assert_eq!(fixes[0].from, b"Windows.h".to_vec());
}

#[test]
fn keeping_both_adds_lowercase_copies() {
    let files = vec![
        file("inc", "Foo.h", &[]),
        file("inc", "bar.h", &[]),
        file("inc", "main.h", &["foo.h", "Bar.h", "Foo.h"]),
        file("lib", "Kernel32.Lib", &[]),
    ];
    let got: Vec<_> = plan_case_fixes(&files, CaseMode::KeepBoth).iter().map(show).collect();
    assert_eq!(
        got,
        vec![
            fix(FixKind::Copy, "inc", "Foo.h", "foo.h"),
            fix(FixKind::Copy, "lib", "Kernel32.Lib", "kernel32.lib"),
            fix(FixKind::Copy, "inc", "bar.h", "Bar.h"),
        ]
    );
}

#[test]
fn keeping_both_second_run_changes_nothing() {
    let files = vec![
        file("um", "WinUser.h", &["windef.h"]),
        file("um", "WinDef.h", &[]),
        file("shared", "minwindef.h", &["WinUser.h", "MinWinDef.h", "winuser.h"]),
        file("lib", "Kernel32.Lib", &[]),
    ];
    let first = plan_case_fixes(&files, CaseMode::KeepBoth);
    assert!(!first.is_empty());
    let after = apply(&files, &first);
    assert!(after.iter().any(|f| f.dir == b"um".to_vec() && f.name == b"WinUser.h".to_vec()));
    assert!(after.iter().any(|f| f.dir == b"um".to_vec() && f.name == b"winuser.h".to_vec()));
    assert!(plan_case_fixes(&after, CaseMode::KeepBoth).is_empty());
}
