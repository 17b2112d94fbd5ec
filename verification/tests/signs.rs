use editsync::annotation::{DiagnosticSeverity, ReconciliationCommand, Sign};
use editsync::commands::{
    batch_string, get_command_add_sign, get_command_delete_sign, get_command_update_signs,
    push_decimal,
};
use editsync::diffing::can_diff;
use editsync::reconcile::{keys_of, reconcile};
use editsync::text::{escape_single_quote, AsRefStr};

fn describe(commands: &[ReconciliationCommand]) -> Vec<(bool, u64, u64, DiagnosticSeverity, String)> {
    commands
        .iter()
        .map(|c| match c {
            ReconciliationCommand::AddAnnotation { sign, file } => {
                (true, sign.id, sign.line, sign.severity, file.clone())
            }
            ReconciliationCommand::RemoveAnnotation { sign, file } => {
                (false, sign.id, sign.line, sign.severity, file.clone())
            }
        })
        .collect()
}

#[test]
fn test_escape_single_quote() {
    assert_eq!(escape_single_quote("my' precious"), "my'' precious");
}

#[test]
fn escape_leaves_other_text_alone() {
    assert_eq!(escape_single_quote(""), "");
    assert_eq!(escape_single_quote("plain \"text\""), "plain \"text\"");
    assert_eq!(escape_single_quote("''"), "''''");
}

#[test]
fn test_get_command_add_sign() {
    let sign = Sign::new(1, DiagnosticSeverity::Error);
    assert_eq!(
        get_command_add_sign(&sign, ""),
        " | execute 'sign place 75000 line=1 name=LanguageClientError file='"
    );

    let sign = Sign::new(7, DiagnosticSeverity::Error);
    assert_eq!(
        get_command_add_sign(&sign, ""),
        " | execute 'sign place 75024 line=7 name=LanguageClientError file='"
    );

    let sign = Sign::new(7, DiagnosticSeverity::Hint);
    assert_eq!(
        get_command_add_sign(&sign, ""),
        " | execute 'sign place 75027 line=7 name=LanguageClientHint file='"
    );
}

#[test]
fn test_get_command_delete_sign() {
    let sign = Sign::new(7, DiagnosticSeverity::Warning);
    assert_eq!(
        get_command_delete_sign(&sign, "a.rs"),
        " | execute 'sign unplace 75025 file=a.rs'"
    );
}

#[test]
fn test_get_command_update_signs() {
    let previous = vec![Sign::new(1, DiagnosticSeverity::Error), Sign::new(3, DiagnosticSeverity::Information)];
    let current = vec![Sign::new(1, DiagnosticSeverity::Error), Sign::new(7, DiagnosticSeverity::Hint)];
    let cmd = get_command_update_signs(&previous, &current, "m.rs");
    assert!(cmd.starts_with("echo"));
    assert!(cmd.contains(" | execute 'sign unplace 75010 file=m.rs'"));
    assert!(cmd.contains(" | execute 'sign place 75027 line=7 name=LanguageClientHint file=m.rs'"));
    assert_eq!(cmd.matches("execute").count(), 2);
    assert_eq!(get_command_update_signs(&current, &current, "m.rs"), "echo");
}

#[test]
fn sign_ids_follow_line_and_severity() {
    assert_eq!(Sign::new(1, DiagnosticSeverity::Error).id, 75000);
    assert_eq!(Sign::new(1, DiagnosticSeverity::Warning).id, 75001);
    assert_eq!(Sign::new(2, DiagnosticSeverity::Error).id, 75004);
    assert_eq!(DiagnosticSeverity::Information.rank(), 3);
    assert_eq!(DiagnosticSeverity::Information.name(), "Information");
}

#[test]
fn signs_compare_by_line_and_severity_only() {
    let a = Sign { id: 1, line: 4, severity: DiagnosticSeverity::Hint };
    let b = Sign { id: 2, line: 4, severity: DiagnosticSeverity::Hint };
    let c = Sign { id: 1, line: 4, severity: DiagnosticSeverity::Error };
    let d = Sign { id: 1, line: 5, severity: DiagnosticSeverity::Hint };
    assert!(a.same_marker(&b));
    assert!(!a.same_marker(&c));
    assert!(!a.same_marker(&d));
    assert_eq!(keys_of(&[a, c, d]), vec![(4, 4), (4, 1), (5, 4)]);
}

#[test]
fn equal_overlays_need_no_command() {
    let signs = vec![
        Sign::new(1, DiagnosticSeverity::Error),
        Sign::new(2, DiagnosticSeverity::Warning),
        Sign::new(2, DiagnosticSeverity::Warning),
        Sign::new(9, DiagnosticSeverity::Hint),
    ];
    assert!(reconcile(&signs, &signs, "f").is_empty());
    let none: Vec<Sign> = Vec::new();
    assert!(reconcile(&none, &none, "f").is_empty());
}

#[test]
fn overlays_that_differ_by_id_only_need_no_command() {
    let previous = vec![Sign { id: 1, line: 3, severity: DiagnosticSeverity::Error }];
    let current = vec![Sign { id: 99, line: 3, severity: DiagnosticSeverity::Error }];
    assert!(reconcile(&previous, &current, "f").is_empty());
}

#[test]
fn empty_previous_adds_every_sign_in_order() {
    let current = vec![
        Sign::new(5, DiagnosticSeverity::Hint),
        Sign::new(1, DiagnosticSeverity::Error),
        Sign::new(5, DiagnosticSeverity::Hint),
    ];
    let out = describe(&reconcile(&[], &current, "x.rs"));
    assert_eq!(
        out,
        vec![
            (true, 75019, 5, DiagnosticSeverity::Hint, "x.rs".to_owned()),
            (true, 75000, 1, DiagnosticSeverity::Error, "x.rs".to_owned()),
            (true, 75019, 5, DiagnosticSeverity::Hint, "x.rs".to_owned()),
        ]
    );
}

#[test]
fn empty_current_removes_every_sign_in_order() {
    let previous = vec![
        Sign::new(2, DiagnosticSeverity::Warning),
        Sign::new(8, DiagnosticSeverity::Information),
    ];
    let out = describe(&reconcile(&previous, &[], "x.rs"));
    assert_eq!(
        out,
        vec![
            (false, 75005, 2, DiagnosticSeverity::Warning, "x.rs".to_owned()),
            (false, 75030, 8, DiagnosticSeverity::Information, "x.rs".to_owned()),
        ]
    );
}

#[test]
fn one_new_sign_gives_one_addition() {
    let previous = vec![Sign::new(1, DiagnosticSeverity::Error)];
    let current = vec![Sign::new(1, DiagnosticSeverity::Error), Sign::new(7, DiagnosticSeverity::Hint)];
    let out = describe(&reconcile(&previous, &current, "f"));
    assert_eq!(out, vec![(true, 75027, 7, DiagnosticSeverity::Hint, "f".to_owned())]);
}

#[test]
fn commands_carry_the_instance_of_their_own_side() {
    let previous = vec![
        Sign { id: 10, line: 1, severity: DiagnosticSeverity::Error },
        Sign { id: 11, line: 2, severity: DiagnosticSeverity::Error },
        Sign { id: 12, line: 3, severity: DiagnosticSeverity::Error },
    ];
    let current = vec![
        Sign { id: 20, line: 1, severity: DiagnosticSeverity::Error },
        Sign { id: 21, line: 3, severity: DiagnosticSeverity::Error },
        Sign { id: 22, line: 4, severity: DiagnosticSeverity::Warning },
    ];
    let out = describe(&reconcile(&previous, &current, "f"));
    assert_eq!(
        out,
        vec![
            (false, 11, 2, DiagnosticSeverity::Error, "f".to_owned()),
            (true, 22, 4, DiagnosticSeverity::Warning, "f".to_owned()),
        ]
    );
}

#[test]
fn a_changed_severity_is_a_removal_and_an_addition() {
    let previous = vec![Sign::new(4, DiagnosticSeverity::Warning)];
    let current = vec![Sign::new(4, DiagnosticSeverity::Error)];
    let out = reconcile(&previous, &current, "f");
    assert_eq!(out.len(), 2);
    assert_eq!(out.iter().filter(|c| c.is_add()).count(), 1);
    let added: Vec<u64> = out.iter().filter(|c| c.is_add()).map(|c| c.sign().id).collect();
    let removed: Vec<u64> = out.iter().filter(|c| !c.is_add()).map(|c| c.sign().id).collect();
    assert_eq!(added, vec![75012]);
    assert_eq!(removed, vec![75013]);
}

#[test]
fn batch_string_joins_the_command_texts() {
    let batch = vec![
        ReconciliationCommand::RemoveAnnotation {
            sign: Sign::new(1, DiagnosticSeverity::Error),
            file: "a".to_owned(),
        },
        ReconciliationCommand::AddAnnotation {
            sign: Sign::new(2, DiagnosticSeverity::Warning),
            file: "a".to_owned(),
        },
    ];
    assert_eq!(
        batch_string(&batch),
        "echo | execute 'sign unplace 75000 file=a' | execute 'sign place 75005 line=2 name=LanguageClientWarning file=a'"
    );
    assert_eq!(batch_string(&Vec::new()), "echo");
}

#[test]
fn decimal_text_of_numbers() {
    let mut s = String::from("n=");
    push_decimal(&mut s, 0);
    push_decimal(&mut s, 10);
    push_decimal(&mut s, 907);
    push_decimal(&mut s, u64::MAX);
    assert_eq!(s, "n=01090718446744073709551615");
}

#[test]
fn diff_size_limit() {
    assert!(can_diff(0, 0));
    assert!(can_diff(1000, 1000));
    assert!(!can_diff(usize::MAX, 0));
    assert!(!can_diff(usize::MAX / 2, 2));
    assert!(can_diff(usize::MAX / 2, 0));
}

#[test]
fn option_string_borrows_as_str() {
    assert_eq!(Some("abc".to_owned()).as_ref_str(), Some("abc"));
    let nothing: Option<String> = None;
    assert_eq!(nothing.as_ref_str(), None);
}

#[test]
fn try_reconcile_gives_the_batch() {
    let previous = vec![Sign::new(1, DiagnosticSeverity::Error)];
    let current = vec![Sign::new(2, DiagnosticSeverity::Error)];
    let out = editsync::reconcile::try_reconcile(&previous, &current, "f").unwrap();
    assert_eq!(
        describe(&out),
        vec![
            (false, 75000, 1, DiagnosticSeverity::Error, "f".to_owned()),
            (true, 75004, 2, DiagnosticSeverity::Error, "f".to_owned()),
        ]
    );
}
