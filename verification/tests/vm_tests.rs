use murder::scene::GameObject;
use murder::vm::{run_branch, run_vm, trace_branch, trace_vm, trim_quotes_of, BranchValue, Ending};

fn obj(code: &str) -> GameObject {
    GameObject { ent: 1, name: "obj".to_string(), id: 0, code: code.to_string() }
}

#[test]
fn word_prints_its_string_arguments() {
    let r = run_branch("println(\"Hello, world!\")".to_string());
    assert_eq!(r.printed, vec!["Hello, world!".to_string()]);
    assert_eq!(r.value, BranchValue::Done);
}

#[test]
fn arguments_are_joined_then_trimmed() {
    let r = run_branch("say(\"a\" \"b\")".to_string());
    assert_eq!(r.printed, vec!["a\"\"b".to_string()]);
}

#[test]
fn word_without_arguments_prints_an_empty_line() {
    let r = run_branch("hello".to_string());
    assert_eq!(r.printed, vec!["".to_string()]);
}

#[test]
fn true_returns_true() {
    let r = run_branch("  true say(\"never\")".to_string());
    assert!(r.printed.is_empty());
    assert_eq!(r.value, BranchValue::True);
}

#[test]
fn if_with_true_condition_runs_its_body() {
    let r = run_branch("if true { println(\"hi\") }".to_string());
    assert_eq!(r.printed, vec!["hi".to_string()]);
    // the outer run goes on after `if` and meets the condition's `true`
    assert_eq!(r.value, BranchValue::True);
}

#[test]
fn and_is_left_out_of_conditions() {
    let r = run_branch("if && true { a(\"x\") }".to_string());
    assert_eq!(r.printed, vec!["x".to_string()]);
}

#[test]
fn false_condition_faults() {
    let t = trace_branch("if false { a(\"x\") }");
    assert!(t.printed.is_empty());
    assert_eq!(t.ending, Ending::Fault);
}

#[test]
fn if_without_brace_faults() {
    let t = trace_branch("say(\"a\") if true");
    assert_eq!(t.printed, vec!["a".to_string()]);
    assert_eq!(t.ending, Ending::Fault);
}

#[test]
fn condition_starts_after_the_iteration_count() {
    // `say("a")` takes four lexemes but one iteration, so the condition
    // begins before the `if` and holds it: the inner `if` has no brace.
    let t = trace_branch("say(\"a\") if true { say(\"b\") }");
    assert_eq!(t.printed, vec!["a".to_string()]);
    assert_eq!(t.ending, Ending::Fault);
}

#[test]
fn body_stops_at_first_closing_brace() {
    let r = run_branch("if true { a(\"x\") } b(\"y\")".to_string());
    assert_eq!(r.printed, vec!["x".to_string()]);
    assert_eq!(r.value, BranchValue::True);
}

#[test]
fn plain_script_finishes() {
    let t = trace_branch("null, [] => -> ;");
    assert!(t.printed.is_empty());
    assert_eq!(t.ending, Ending::Finished);
}

#[test]
fn run_vm_runs_each_object_in_order() {
    let objs = vec![obj("a(\"one\")"), obj(""), obj("b(\"two\") c(\"three\")")];
    assert_eq!(run_vm(&objs), vec!["one".to_string(), "two".to_string(), "three".to_string()]);
}

#[test]
fn trimming_quotes() {
    assert_eq!(trim_quotes_of("\"\"abc\"\""), "abc");
    assert_eq!(trim_quotes_of("\"\"\""), "");
    assert_eq!(trim_quotes_of("a\"b"), "a\"b");
    assert_eq!(trim_quotes_of(""), "");
}

#[test]
fn trace_vm_stops_at_first_fault() {
    let objs = vec![obj("a(\"one\")"), obj("b(\"two\") if false { c(\"x\") }"), obj("d(\"never\")")];
    let t = trace_vm(&objs);
    assert_eq!(t.printed, vec!["one".to_string(), "two".to_string()]);
    assert!(t.faulted);
    let objs = vec![obj("a(\"one\")"), obj("b(\"two\")")];
    let t = trace_vm(&objs);
    assert_eq!(t.printed, vec!["one".to_string(), "two".to_string()]);
    assert!(!t.faulted);
    assert_eq!(t.printed, run_vm(&objs));
}

#[test]
fn broken_literal_word_prints() {
    // `"a-b"`: the broken literal `"a` is an error, so `b` is a word of its own
    let t = trace_branch("\"a-b\"");
    assert_eq!(t.printed, vec!["".to_string()]);
    assert_eq!(t.ending, Ending::Finished);
}
