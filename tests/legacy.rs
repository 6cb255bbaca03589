use nature::legacy::{run_file_legacy, LegacyAction, LegacyError, LegacyEvent, LEGACY_SCRIPT_HEAD,
    LEGACY_SCRIPT_TAIL,
};
use nature::module_manager::Function;

#[test]
fn legacy_run_starts_with_the_script_for_the_path() {
    match run_file_legacy("docs/app.nature", LegacyEvent::Start) {
        LegacyAction::RunScript(s) => {
            assert!(s.contains("with open('docs/app.nature', 'r') as f:"));
            assert!(!s.contains("{}"));
            assert_eq!(s, format!("{}docs/app.nature{}", LEGACY_SCRIPT_HEAD, LEGACY_SCRIPT_TAIL));
            assert!(s.starts_with("\nimport os"));
            assert!(s.ends_with("print(generated_code)\n"));
        }
        other => panic!("unexpected action {:?}", other),
    }
}

#[test]
fn legacy_run_interprets_generated_code() {
    let a = run_file_legacy("a.nature", LegacyEvent::Generated(Ok("print(1)".to_string())));
    assert_eq!(a, LegacyAction::Interpret("print(1)".to_string()));
}

#[test]
fn legacy_run_stops_on_generation_failure() {
    let a = run_file_legacy("a.nature", LegacyEvent::Generated(Err("no python".to_string())));
    assert_eq!(a, LegacyAction::Finish(Err(LegacyError::Generation("no python".to_string()))));
}

#[test]
fn legacy_run_reports_interpreter_failure() {
    let a = run_file_legacy("a.nature", LegacyEvent::Interpreted(Err("exit 1".to_string())));
    assert_eq!(a, LegacyAction::Finish(Err(LegacyError::Interpreter("exit 1".to_string()))));
    let done = run_file_legacy("a.nature", LegacyEvent::Interpreted(Ok(())));
    assert_eq!(done, LegacyAction::Finish(Ok(())));
}

#[test]
fn function_holds_its_parts() {
    let f = Function {
        name: "greet".to_string(),
        parameters: vec!["who".to_string()],
        body: "print(who)".to_string(),
    };
    assert_eq!(f.name, "greet");
    assert_eq!(f.parameters.len(), 1);
    assert_eq!(f.body, "print(who)");
}
